//! Placement of the chunks of erasure-coded extents.

use crate::collections::lemma_push_contains;
use crate::storage::grouping::{
    group_slots, group_views, grouped, grouping_keeps_ids_distinct, grouping_keeps_the_places,
    groups_wf, ids_distinct, in_groups, slot_ids_distinct, GroupModel, Slot,
};
use crate::storage::placement::PlacementEngine;
use crate::storage::ranking::{
    falling_groups, rank_groups, ranked, ranking_keeps_the_groups, ranking_keeps_the_places, Measure,
};
use crate::text::{decimal, decimal_text, join2, join4, same_text};
use crate::types::{Error, NodeInfo, NodeState, RaftNodeId, ZfsHealthState};
use vstd::prelude::*;

verus! {

/// Describes the placement of all chunks of an erasure-coded extent across
/// the cluster.
#[derive(Clone, Debug)]
pub struct EcPlacement {
    /// Extent identifier this placement is for.
    pub extent_id: u64,
    /// Ordered list of chunk locations (indices 0..k are data, k..k+m are
    /// parity).
    pub chunks: Vec<ChunkLocation>,
}

/// Location of a single chunk within an erasure-coded extent.
#[derive(Clone, Copy, Debug, PartialEq, Eq, Structural)]
pub struct ChunkLocation {
    /// Chunk index within the extent (0..k+m).
    pub chunk_index: usize,
    /// Node that stores this chunk.
    pub node_id: RaftNodeId,
    /// Whether this chunk is a parity chunk.
    pub is_parity: bool,
}

impl NodeInfo {
    /// Whether chunks and volumes may be placed on the node.
    pub open spec fn is_eligible(self) -> bool {
        self.state == NodeState::Healthy && self.zfs_health == ZfsHealthState::Online
    }

    /// The node's free space; none where more is used than there is.
    pub open spec fn free(self) -> u64 {
        if self.used_bytes <= self.capacity_bytes {
            (self.capacity_bytes - self.used_bytes) as u64
        } else {
            0
        }
    }

    /// The node's failure domain: its rack, or the node itself where none is given.
    pub open spec fn domain(self) -> Seq<char> {
        match rack_of(self.tags@) {
            Some(rack) => rack,
            None => "__node_"@ + decimal(self.id as nat),
        }
    }

    /// Whether chunks and volumes may be placed on the node.
    pub fn eligible(&self) -> (r: bool)
        ensures
            r == self.is_eligible(),
            r == (self.state is Healthy && self.zfs_health is Online),
    {
        self.state == NodeState::Healthy && self.zfs_health == ZfsHealthState::Online
    }

    /// The node's free space.
    pub fn free_bytes(&self) -> (r: u64)
        ensures
            r == self.free(),
            self.used_bytes <= self.capacity_bytes ==> r == self.capacity_bytes - self.used_bytes,
            self.used_bytes > self.capacity_bytes ==> r == 0,
    {
        if self.used_bytes <= self.capacity_bytes {
            self.capacity_bytes - self.used_bytes
        } else {
            0
        }
    }

    /// The node's failure domain.
    pub fn failure_domain(&self) -> (s: String)
        ensures
            s@ == self.domain(),
    {
        let mut i: usize = 0;
        assert(self.tags@.skip(0) =~= self.tags@);
        while i < self.tags.len()
            invariant
                i <= self.tags@.len(),
                rack_of(self.tags@) == rack_of(self.tags@.skip(i as int)),
            decreases self.tags@.len() - i,
        {
            if same_text(self.tags[i].0.as_str(), "rack") {
                return self.tags[i].1.clone();
            }
            assert(self.tags@.skip(i as int).skip(1) =~= self.tags@.skip(i + 1));
            i = i + 1;
        }
        join2("__node_", decimal_text(self.id).as_str())
    }
}

/// The value of the tag `rack`.
pub open spec fn rack_of(tags: Seq<(String, String)>) -> Option<Seq<char>>
    decreases tags.len(),
{
    if tags.len() == 0 {
        None
    } else if tags[0].0@ == "rack"@ {
        Some(tags[0].1@)
    } else {
        rack_of(tags.skip(1))
    }
}

/// The nodes that chunks may be placed on, in order.
pub open spec fn eligible_nodes(candidates: Seq<NodeInfo>) -> Seq<NodeInfo> {
    candidates.filter(|n: NodeInfo| n.is_eligible())
}

/// The position of the first node from `from` on that lies in a domain.
pub open spec fn domain_search(nodes: Seq<NodeInfo>, domain: Seq<char>, from: int) -> int
    decreases nodes.len() - from,
{
    if from >= nodes.len() || nodes[from].domain() == domain {
        from
    } else {
        domain_search(nodes, domain, from + 1)
    }
}

/// The nodes as places: keyed by their failure domain, which is numbered by the position
/// of the first node in it.
pub open spec fn node_slots(nodes: Seq<NodeInfo>) -> Seq<Slot> {
    Seq::new(
        nodes.len(),
        |i: int|
            Slot {
                key: domain_search(nodes, nodes[i].domain(), 0) as u128,
                free: nodes[i].free(),
                id: nodes[i].id as u128,
            },
    )
}

/// What is chosen after the first domains of a round have given their next node: a domain
/// that has none left, or whose next node is chosen already, gives none.
pub open spec fn after_round(
    groups: Seq<GroupModel>,
    round: int,
    upto: int,
    chosen: Seq<u128>,
    count: int,
) -> Seq<u128>
    decreases upto,
{
    if upto <= 0 {
        chosen
    } else {
        let before = after_round(groups, round, upto - 1, chosen, count);
        let slots = groups[upto - 1].slots;
        if before.len() < count && round < slots.len() && !before.contains(slots[round].id) {
            before.push(slots[round].id)
        } else {
            before
        }
    }
}

/// What is chosen when round follows round, until there are enough or a round adds none.
pub open spec fn spread(
    groups: Seq<GroupModel>,
    round: int,
    chosen: Seq<u128>,
    count: int,
) -> Seq<u128>
    decreases
        (if chosen.len() < count {
            count - chosen.len()
        } else {
            0
        }),
{
    if chosen.len() >= count {
        chosen
    } else {
        let next = after_round(groups, round, groups.len() as int, chosen, count);
        if next.len() <= chosen.len() {
            chosen
        } else {
            spread(groups, round + 1, next, count)
        }
    }
}

/// The failure domains of nodes, that of the freest node first, and among equals in the
/// given order; each with its nodes by falling free space.
pub open spec fn domains(nodes: Seq<NodeInfo>) -> Seq<GroupModel> {
    ranked(grouped(node_slots(nodes)), Measure::Freest)
}

/// The nodes that are chosen from the given ones: the failure domains take turns, each
/// giving its freest node that was not chosen yet, and the domain with the freest node
/// has the first turn.
pub open spec fn selection(nodes: Seq<NodeInfo>, count: int) -> Seq<u128> {
    spread(domains(nodes), 0, Seq::empty(), count)
}

proof fn lemma_domain_search(nodes: Seq<NodeInfo>, domain: Seq<char>, from: int)
    requires
        0 <= from <= nodes.len(),
    ensures
        from <= domain_search(nodes, domain, from) <= nodes.len(),
        domain_search(nodes, domain, from) < nodes.len() ==> nodes[domain_search(
            nodes,
            domain,
            from,
        )].domain() == domain,
        forall|i: int|
            from <= i < domain_search(nodes, domain, from) ==> (#[trigger] nodes[i]).domain()
                != domain,
    decreases nodes.len() - from,
{
    if from < nodes.len() && nodes[from].domain() != domain {
        lemma_domain_search(nodes, domain, from + 1);
    }
}

/// Two nodes stand in one group exactly where they lie in one failure domain.
pub proof fn groups_are_failure_domains(nodes: Seq<NodeInfo>, i: int, j: int)
    requires
        0 <= i < nodes.len() <= u64::MAX,
        0 <= j < nodes.len(),
    ensures
        node_slots(nodes)[i].key == node_slots(nodes)[j].key <==> nodes[i].domain()
            == nodes[j].domain(),
{
    lemma_domain_search(nodes, nodes[i].domain(), 0);
    lemma_domain_search(nodes, nodes[j].domain(), 0);
}

/// Whether exactly the first nodes of every domain are chosen: `rounds` of each, and one
/// more of the first `upto` domains.
pub open spec fn balanced(
    groups: Seq<GroupModel>,
    chosen: Seq<u128>,
    rounds: int,
    upto: int,
) -> bool {
    forall|g: int, k: int|
        0 <= g < groups.len() && 0 <= k < groups[g].slots.len() ==> (chosen.contains(
            (#[trigger] groups[g].slots[k]).id,
        ) <==> k < rounds || (k == rounds && g < upto))
}

proof fn lemma_after_round(
    groups: Seq<GroupModel>,
    round: int,
    upto: int,
    chosen: Seq<u128>,
    count: int,
)
    requires
        0 <= upto <= groups.len(),
        0 <= round,
        chosen.no_duplicates(),
        chosen.len() <= count,
    ensures
        after_round(groups, round, upto, chosen, count).no_duplicates(),
        chosen.len() <= after_round(groups, round, upto, chosen, count).len() <= count,
        forall|x: u128| #[trigger]
            after_round(groups, round, upto, chosen, count).contains(x) ==> chosen.contains(x) || (
            exists|g: int|
                0 <= g < groups.len() && round < (#[trigger] groups[g]).slots.len()
                    && groups[g].slots[round].id == x),
    decreases upto,
{
    if upto > 0 {
        lemma_after_round(groups, round, upto - 1, chosen, count);
        let before = after_round(groups, round, upto - 1, chosen, count);
        let after = after_round(groups, round, upto, chosen, count);
        let slots = groups[upto - 1].slots;
        if before.len() < count && round < slots.len() && !before.contains(slots[round].id) {
            assert forall|x: u128| #[trigger] after.contains(x) implies chosen.contains(x) || (
            exists|g: int|
                0 <= g < groups.len() && round < (#[trigger] groups[g]).slots.len()
                    && groups[g].slots[round].id == x) by {
                lemma_push_contains(before, slots[round].id, x);
                if !before.contains(x) {
                    assert(groups[upto - 1].slots[round].id == x);
                }
            }
        }
    }
}

proof fn lemma_round_is_balanced(
    groups: Seq<GroupModel>,
    round: int,
    upto: int,
    chosen: Seq<u128>,
    count: int,
) -> (reached: int)
    requires
        0 <= upto <= groups.len(),
        0 <= round,
        ids_distinct(groups),
        balanced(groups, chosen, round, 0),
    ensures
        0 <= reached <= upto,
        balanced(groups, after_round(groups, round, upto, chosen, count), round, reached),
        after_round(groups, round, upto, chosen, count).len() < count ==> reached == upto,
    decreases upto,
{
    if upto == 0 {
        0
    } else {
        let before_reached = lemma_round_is_balanced(groups, round, upto - 1, chosen, count);
        let before = after_round(groups, round, upto - 1, chosen, count);
        let after = after_round(groups, round, upto, chosen, count);
        let slots = groups[upto - 1].slots;
        if before.len() < count && round < slots.len() && !before.contains(slots[round].id) {
            assert(before_reached == upto - 1);
            let id = slots[round].id;
            assert forall|g: int, k: int|
                0 <= g < groups.len() && 0 <= k < groups[g].slots.len() implies (after.contains(
                (#[trigger] groups[g].slots[k]).id,
            ) <==> k < round || (k == round && g < upto)) by {
                lemma_push_contains(before, id, groups[g].slots[k].id);
                if groups[g].slots[k].id == id {
                    assert(groups[upto - 1].slots[round].id == id);
                    assert(g == upto - 1 && k == round);
                }
            }
            upto
        } else if before.len() < count {
            assert(before_reached == upto - 1);
            if round < slots.len() {
                assert(before.contains(groups[upto - 1].slots[round].id));
                assert(false);
            }
            assert forall|g: int, k: int|
                0 <= g < groups.len() && 0 <= k < groups[g].slots.len() implies (after.contains(
                (#[trigger] groups[g].slots[k]).id,
            ) <==> k < round || (k == round && g < upto)) by {
                if k == round && g == upto - 1 {
                    assert(false);
                }
            }
            upto
        } else {
            before_reached
        }
    }
}

proof fn lemma_round_adds_when_possible(
    groups: Seq<GroupModel>,
    round: int,
    chosen: Seq<u128>,
    count: int,
)
    requires
        0 <= round,
        ids_distinct(groups),
        chosen.no_duplicates(),
        balanced(groups, chosen, round, 0),
        chosen.len() < count,
        after_round(groups, round, groups.len() as int, chosen, count).len() <= chosen.len(),
    ensures
        forall|g: int, k: int|
            0 <= g < groups.len() && 0 <= k < groups[g].slots.len() ==> chosen.contains(
                (#[trigger] groups[g].slots[k]).id,
            ),
{
    let n = groups.len() as int;
    let after = after_round(groups, round, n, chosen, count);
    let reached = lemma_round_is_balanced(groups, round, n, chosen, count);
    lemma_after_round(groups, round, n, chosen, count);
    lemma_round_extends(groups, round, n, chosen, count);
    assert(after =~= chosen);
    assert forall|g: int, k: int| 0 <= g < groups.len() && 0 <= k < groups[g].slots.len() implies chosen.contains(
        (#[trigger] groups[g].slots[k]).id,
    ) by {
        if k >= round {
            assert(round < groups[g].slots.len());
            assert(after.contains(groups[g].slots[round].id));
            assert(chosen.contains(groups[g].slots[round].id) <==> round < round || (round == round
                && g < 0));
            assert(false);
        }
    }
}

proof fn lemma_round_extends(
    groups: Seq<GroupModel>,
    round: int,
    upto: int,
    chosen: Seq<u128>,
    count: int,
)
    requires
        0 <= upto <= groups.len(),
    ensures
        chosen.len() <= after_round(groups, round, upto, chosen, count).len(),
        after_round(groups, round, upto, chosen, count).take(chosen.len() as int) == chosen,
    decreases upto,
{
    if upto > 0 {
        lemma_round_extends(groups, round, upto - 1, chosen, count);
        let before = after_round(groups, round, upto - 1, chosen, count);
        let after = after_round(groups, round, upto, chosen, count);
        assert(after.take(chosen.len() as int) =~= before.take(chosen.len() as int));
    } else {
        assert(chosen.take(chosen.len() as int) =~= chosen);
    }
}

proof fn lemma_spread(groups: Seq<GroupModel>, round: int, chosen: Seq<u128>, count: int)
    requires
        0 <= round,
        chosen.no_duplicates(),
        chosen.len() <= count,
    ensures
        spread(groups, round, chosen, count).no_duplicates(),
        spread(groups, round, chosen, count).len() <= count,
        forall|x: u128| #[trigger]
            spread(groups, round, chosen, count).contains(x) ==> chosen.contains(x) || (exists|
                g: int,
                k: int,
            |
                0 <= g < groups.len() && 0 <= k < groups[g].slots.len() && (
                #[trigger] groups[g].slots[k]).id == x),
    decreases count - chosen.len(),
{
    if chosen.len() < count {
        let n = groups.len() as int;
        let next = after_round(groups, round, n, chosen, count);
        lemma_after_round(groups, round, n, chosen, count);
        if next.len() > chosen.len() {
            lemma_spread(groups, round + 1, next, count);
            let result = spread(groups, round, chosen, count);
            assert forall|x: u128| #[trigger] result.contains(x) implies chosen.contains(x) || (
            exists|g: int, k: int|
                0 <= g < groups.len() && 0 <= k < groups[g].slots.len() && (
                #[trigger] groups[g].slots[k]).id == x) by {
                if next.contains(x) && !chosen.contains(x) {
                    let g = choose|g: int|
                        0 <= g < groups.len() && round < (#[trigger] groups[g]).slots.len()
                            && groups[g].slots[round].id == x;
                    assert(groups[g].slots[round].id == x);
                }
            }
        }
    }
}

/// The rounds that a selection has run, and how far into the last one it got.
proof fn lemma_spread_is_balanced(
    groups: Seq<GroupModel>,
    round: int,
    chosen: Seq<u128>,
    count: int,
) -> (reached: (int, int))
    requires
        0 <= round,
        ids_distinct(groups),
        chosen.no_duplicates(),
        chosen.len() <= count,
        balanced(groups, chosen, round, 0),
    ensures
        0 <= reached.0,
        0 <= reached.1 <= groups.len(),
        balanced(groups, spread(groups, round, chosen, count), reached.0, reached.1),
        spread(groups, round, chosen, count).len() == count || forall|g: int, k: int|
            0 <= g < groups.len() && 0 <= k < groups[g].slots.len() ==> spread(
                groups,
                round,
                chosen,
                count,
            ).contains((#[trigger] groups[g].slots[k]).id),
    decreases count - chosen.len(),
{
    if chosen.len() >= count {
        (round, 0)
    } else {
        let n = groups.len() as int;
        let next = after_round(groups, round, n, chosen, count);
        lemma_after_round(groups, round, n, chosen, count);
        let reached = lemma_round_is_balanced(groups, round, n, chosen, count);
        if next.len() <= chosen.len() {
            lemma_round_adds_when_possible(groups, round, chosen, count);
            (round, 0)
        } else if next.len() >= count {
            assert(spread(groups, round + 1, next, count) == next);
            (round, reached)
        } else {
            assert(reached == n);
            assert forall|g: int, k: int|
                0 <= g < groups.len() && 0 <= k < groups[g].slots.len() implies (next.contains(
                (#[trigger] groups[g].slots[k]).id,
            ) <==> k < round + 1 || (k == round + 1 && g < 0)) by {}
            lemma_spread_is_balanced(groups, round + 1, next, count)
        }
    }
}

/// Whether no two nodes have one number.
pub open spec fn node_ids_distinct(nodes: Seq<NodeInfo>) -> bool {
    forall|i: int, j: int|
        0 <= i < j < nodes.len() ==> (#[trigger] nodes[i]).id != (#[trigger] nodes[j]).id
}

/// No node is chosen twice, every chosen node is one of the given ones, and no more are
/// chosen than asked for.
pub proof fn selection_is_of_different_nodes(nodes: Seq<NodeInfo>, count: int)
    requires
        0 <= count,
    ensures
        selection(nodes, count).no_duplicates(),
        selection(nodes, count).len() <= count,
        forall|x: u128| #[trigger]
            selection(nodes, count).contains(x) ==> exists|i: int|
                0 <= i < nodes.len() && (#[trigger] nodes[i]).id == x,
{
    let slots = node_slots(nodes);
    let groups = domains(nodes);
    lemma_domains(nodes);
    lemma_spread(groups, 0, Seq::empty(), count);
    assert forall|x: u128| #[trigger] selection(nodes, count).contains(x) implies exists|i: int|
        0 <= i < nodes.len() && (#[trigger] nodes[i]).id == x by {
        let (g, k) = choose|g: int, k: int|
            0 <= g < groups.len() && 0 <= k < groups[g].slots.len() && (
            #[trigger] groups[g].slots[k]).id == x;
        let s = groups[g].slots[k];
        assert(groups[g].slots.contains(s));
        assert(in_groups(groups, s));
        let i = choose|i: int| 0 <= i < slots.len() && slots[i] == s;
        assert(nodes[i].id == x);
    }
}

/// Of nodes with different numbers, as many are chosen as asked for, provided that there
/// are as many.
pub proof fn selection_is_complete(nodes: Seq<NodeInfo>, count: int)
    requires
        node_ids_distinct(nodes),
        0 <= count <= nodes.len(),
    ensures
        selection(nodes, count).len() == count,
{
    let slots = node_slots(nodes);
    let groups = domains(nodes);
    lemma_domains(nodes);
    let none = Seq::<u128>::empty();
    assert(balanced(groups, none, 0, 0));
    lemma_spread(groups, 0, none, count);
    let reached = lemma_spread_is_balanced(groups, 0, none, count);
    let result = selection(nodes, count);
    if result.len() < count {
        let ids = slots.map_values(|s: Slot| s.id);
        assert(ids.no_duplicates()) by {
            assert forall|i: int, j: int| 0 <= i < ids.len() && 0 <= j < ids.len() && i
                != j implies ids[i] != ids[j] by {
                if i < j {
                    assert(nodes[i].id != nodes[j].id);
                } else {
                    assert(nodes[j].id != nodes[i].id);
                }
            }
        }
        ids.unique_seq_to_set();
        result.unique_seq_to_set();
        assert forall|x: u128| #[trigger] ids.to_set().contains(x) implies result.to_set().contains(
            x,
        ) by {
            let i = choose|i: int| 0 <= i < ids.len() && ids[i] == x;
            assert(slots.contains(slots[i]));
            assert(in_groups(groups, slots[i]));
            let g = choose|g: int|
                0 <= g < groups.len() && (#[trigger] groups[g]).slots.contains(slots[i]);
            let k = choose|k: int|
                0 <= k < groups[g].slots.len() && groups[g].slots[k] == slots[i];
            assert(result.contains(groups[g].slots[k].id));
        }
        vstd::set_lib::lemma_len_subset(ids.to_set(), result.to_set());
        assert(false);
    }
}

/// The failure domains take turns: of nodes with different numbers, no domain gives a
/// further node while another one that has one left has given fewer by more than one.
pub proof fn selection_is_spread_over_domains(nodes: Seq<NodeInfo>, count: int)
    requires
        node_ids_distinct(nodes),
        0 <= count,
    ensures
        exists|rounds: int, upto: int|
            0 <= rounds && #[trigger] balanced(
                domains(nodes),
                selection(nodes, count),
                rounds,
                upto,
            ),
{
    let groups = domains(nodes);
    lemma_domains(nodes);
    let none = Seq::<u128>::empty();
    assert(balanced(groups, none, 0, 0));
    let reached = lemma_spread_is_balanced(groups, 0, none, count);
    assert(balanced(groups, selection(nodes, count), reached.0, reached.1));
}

proof fn lemma_domains(nodes: Seq<NodeInfo>)
    ensures
        groups_wf(domains(nodes)),
        falling_groups(domains(nodes), Measure::Freest),
        forall|s: Slot| #[trigger]
            in_groups(domains(nodes), s) <==> node_slots(nodes).contains(s),
        node_ids_distinct(nodes) ==> ids_distinct(domains(nodes)),
{
    let slots = node_slots(nodes);
    grouping_keeps_the_places(slots);
    ranking_keeps_the_groups(grouped(slots), Measure::Freest);
    ranking_keeps_the_places(grouped(slots), Measure::Freest);
    if node_ids_distinct(nodes) {
        assert forall|i: int, j: int| 0 <= i < j < slots.len() implies (#[trigger] slots[i]).id
            != (#[trigger] slots[j]).id by {
            assert(nodes[i].id != nodes[j].id);
        }
        grouping_keeps_ids_distinct(slots);
    }
}

/// Where a node stands among the failure domains.
proof fn lemma_place_of_node(nodes: Seq<NodeInfo>, i: int) -> (at: (int, int))
    requires
        0 <= i < nodes.len(),
    ensures
        0 <= at.0 < domains(nodes).len(),
        0 <= at.1 < domains(nodes)[at.0].slots.len(),
        domains(nodes)[at.0].slots[at.1] == node_slots(nodes)[i],
{
    let groups = domains(nodes);
    let s = node_slots(nodes)[i];
    lemma_domains(nodes);
    assert(node_slots(nodes).contains(s));
    assert(in_groups(groups, s));
    let g = choose|g: int| 0 <= g < groups.len() && (#[trigger] groups[g]).slots.contains(s);
    let k = choose|k: int| 0 <= k < groups[g].slots.len() && groups[g].slots[k] == s;
    (g, k)
}

/// A node that stands at a place among the failure domains.
proof fn lemma_node_at_place(nodes: Seq<NodeInfo>, g: int, k: int) -> (i: int)
    requires
        0 <= g < domains(nodes).len(),
        0 <= k < domains(nodes)[g].slots.len(),
    ensures
        0 <= i < nodes.len(),
        node_slots(nodes)[i] == domains(nodes)[g].slots[k],
{
    let groups = domains(nodes);
    let s = groups[g].slots[k];
    lemma_domains(nodes);
    assert(groups[g].slots.contains(s));
    assert(in_groups(groups, s));
    choose|i: int| 0 <= i < node_slots(nodes).len() && node_slots(nodes)[i] == s
}

/// Free space decides which failure domains are used: no node of a domain from which none
/// is chosen has more free space than a chosen node. Of nodes without a rack, each of
/// which is its own domain, the freest are chosen.
pub proof fn passed_over_domains_are_no_freer(
    nodes: Seq<NodeInfo>,
    count: int,
    chosen: int,
    passed_over: int,
)
    requires
        node_ids_distinct(nodes),
        0 <= count,
        0 <= chosen < nodes.len() <= u64::MAX,
        0 <= passed_over < nodes.len(),
        selection(nodes, count).contains(nodes[chosen].id as u128),
        forall|i: int|
            0 <= i < nodes.len() && (#[trigger] nodes[i]).domain() == nodes[passed_over].domain()
                ==> !selection(nodes, count).contains(nodes[i].id as u128),
    ensures
        nodes[chosen].free() >= nodes[passed_over].free(),
        nodes[passed_over].capacity_bytes <= nodes[passed_over].used_bytes
            || nodes[chosen].capacity_bytes - nodes[chosen].used_bytes
            >= nodes[passed_over].capacity_bytes - nodes[passed_over].used_bytes,
{
    let groups = domains(nodes);
    let result = selection(nodes, count);
    lemma_domains(nodes);
    selection_is_spread_over_domains(nodes, count);
    let (rounds, upto) = choose|rounds: int, upto: int|
        0 <= rounds && #[trigger] balanced(groups, result, rounds, upto);
    let (g, k) = lemma_place_of_node(nodes, chosen);
    let (h, l) = lemma_place_of_node(nodes, passed_over);
    let first = lemma_node_at_place(nodes, h, 0);
    assert(groups[h].slots[0].key == groups[h].key);
    assert(groups[h].slots[l].key == groups[h].key);
    groups_are_failure_domains(nodes, first, passed_over);
    assert(!result.contains(nodes[first].id as u128));
    assert(!result.contains(groups[h].slots[0].id));
    assert(result.contains(groups[g].slots[k].id));
    assert(rounds == 0 && k == 0 && g < upto <= h);
    assert(Measure::Freest.of(groups[g].slots) >= Measure::Freest.of(groups[h].slots));
    if l > 0 {
        assert(groups[h].slots[0].free >= groups[h].slots[l].free);
    }
}

/// Of the nodes of one failure domain those with more room are chosen: no node that is
/// passed over has more room than a chosen one.
pub proof fn nodes_with_more_room_are_chosen(
    nodes: Seq<NodeInfo>,
    count: int,
    chosen: int,
    passed_over: int,
)
    requires
        node_ids_distinct(nodes),
        0 <= count,
        0 <= chosen < nodes.len() <= u64::MAX,
        0 <= passed_over < nodes.len(),
        selection(nodes, count).contains(nodes[chosen].id as u128),
        !selection(nodes, count).contains(nodes[passed_over].id as u128),
        nodes[chosen].domain() == nodes[passed_over].domain() || forall|i: int|
            0 <= i < nodes.len() && (#[trigger] nodes[i]).domain() == nodes[passed_over].domain()
                ==> !selection(nodes, count).contains(nodes[i].id as u128),
    ensures
        nodes[passed_over].capacity_bytes <= nodes[passed_over].used_bytes
            || nodes[chosen].capacity_bytes - nodes[chosen].used_bytes
            >= nodes[passed_over].capacity_bytes - nodes[passed_over].used_bytes,
{
    if nodes[chosen].domain() == nodes[passed_over].domain() {
        let groups = domains(nodes);
        let result = selection(nodes, count);
        lemma_domains(nodes);
        selection_is_spread_over_domains(nodes, count);
        let (rounds, upto) = choose|rounds: int, upto: int|
            0 <= rounds && #[trigger] balanced(groups, result, rounds, upto);
        let (g, k) = lemma_place_of_node(nodes, chosen);
        let (h, l) = lemma_place_of_node(nodes, passed_over);
        lemma_same_domain_same_group(nodes, chosen, passed_over, g, k, h, l);
        assert(result.contains(groups[g].slots[k].id));
        assert(!result.contains(groups[h].slots[l].id));
        assert(k < l);
        assert(groups[g].slots[k].free >= groups[g].slots[l].free);
    } else {
        passed_over_domains_are_no_freer(nodes, count, chosen, passed_over);
    }
}

proof fn lemma_same_domain_same_group(
    nodes: Seq<NodeInfo>,
    a: int,
    b: int,
    g: int,
    k: int,
    h: int,
    l: int,
)
    requires
        0 <= a < nodes.len() <= u64::MAX,
        0 <= b < nodes.len(),
        0 <= g < domains(nodes).len(),
        0 <= k < domains(nodes)[g].slots.len(),
        0 <= h < domains(nodes).len(),
        0 <= l < domains(nodes)[h].slots.len(),
        domains(nodes)[g].slots[k] == node_slots(nodes)[a],
        domains(nodes)[h].slots[l] == node_slots(nodes)[b],
    ensures
        nodes[a].domain() == nodes[b].domain() <==> g == h,
{
    let groups = domains(nodes);
    lemma_domains(nodes);
    groups_are_failure_domains(nodes, a, b);
    assert(groups[g].slots[k].key == groups[g].key);
    assert(groups[h].slots[l].key == groups[h].key);
    if g < h {
        assert(groups[g].key != groups[h].key);
    } else if h < g {
        assert(groups[h].key != groups[g].key);
    }
}

/// Whether choices come from these rounds and domains, one after another: round by round,
/// and within a round in the order of the domains.
pub open spec fn comes_from(groups: Seq<GroupModel>, chosen: Seq<u128>, places: Seq<(int, int)>) -> bool {
    &&& places.len() == chosen.len()
    &&& forall|x: int|
        0 <= x < places.len() ==> {
            let (r, g) = #[trigger] places[x];
            &&& 0 <= g < groups.len()
            &&& 0 <= r < groups[g].slots.len()
            &&& chosen[x] == groups[g].slots[r].id
        }
    &&& forall|x: int, y: int|
        #![trigger places[x], places[y]]
        0 <= x < y < places.len() ==> places[x].0 < places[y].0 || (places[x].0 == places[y].0
            && places[x].1 < places[y].1)
}

proof fn lemma_round_comes_from(
    groups: Seq<GroupModel>,
    round: int,
    upto: int,
    chosen: Seq<u128>,
    count: int,
    places: Seq<(int, int)>,
) -> (after: Seq<(int, int)>)
    requires
        0 <= upto <= groups.len(),
        0 <= round,
        comes_from(groups, chosen, places),
        forall|x: int| 0 <= x < places.len() ==> (#[trigger] places[x]).0 < round,
    ensures
        comes_from(groups, after_round(groups, round, upto, chosen, count), after),
        forall|x: int|
            0 <= x < after.len() ==> (#[trigger] after[x]).0 < round || (after[x].0 == round
                && after[x].1 < upto),
    decreases upto,
{
    if upto == 0 {
        places
    } else {
        let before = lemma_round_comes_from(groups, round, upto - 1, chosen, count, places);
        let had = after_round(groups, round, upto - 1, chosen, count);
        let slots = groups[upto - 1].slots;
        if had.len() < count && round < slots.len() && !had.contains(slots[round].id) {
            before.push((round, upto - 1))
        } else {
            before
        }
    }
}

proof fn lemma_spread_comes_from(
    groups: Seq<GroupModel>,
    round: int,
    chosen: Seq<u128>,
    count: int,
    places: Seq<(int, int)>,
) -> (after: Seq<(int, int)>)
    requires
        0 <= round,
        comes_from(groups, chosen, places),
        forall|x: int| 0 <= x < places.len() ==> (#[trigger] places[x]).0 < round,
    ensures
        comes_from(groups, spread(groups, round, chosen, count), after),
    decreases
        (if chosen.len() < count {
            count - chosen.len()
        } else {
            0
        }),
{
    if chosen.len() >= count {
        places
    } else {
        let n = groups.len() as int;
        let next = after_round(groups, round, n, chosen, count);
        if next.len() <= chosen.len() {
            places
        } else {
            let more = lemma_round_comes_from(groups, round, n, chosen, count, places);
            lemma_spread_comes_from(groups, round + 1, next, count, more)
        }
    }
}

/// Where two choices come from, and which nodes they are.
proof fn lemma_choices(nodes: Seq<NodeInfo>, count: int) -> (places: Seq<(int, int)>)
    ensures
        comes_from(domains(nodes), selection(nodes, count), places),
{
    let none = Seq::<(int, int)>::empty();
    assert(comes_from(domains(nodes), Seq::<u128>::empty(), none));
    lemma_spread_comes_from(domains(nodes), 0, Seq::empty(), count, none)
}

proof fn lemma_choice_is_node(
    nodes: Seq<NodeInfo>,
    count: int,
    places: Seq<(int, int)>,
    x: int,
    a: int,
)
    requires
        node_ids_distinct(nodes),
        comes_from(domains(nodes), selection(nodes, count), places),
        0 <= x < selection(nodes, count).len(),
        0 <= a < nodes.len(),
        selection(nodes, count)[x] == nodes[a].id as u128,
    ensures
        ({
            let (r, g) = places[x];
            &&& 0 <= g < domains(nodes).len()
            &&& 0 <= r < domains(nodes)[g].slots.len()
            &&& domains(nodes)[g].slots[r] == node_slots(nodes)[a]
        }),
{
    let (r, g) = places[x];
    let b = lemma_node_at_place(nodes, g, r);
    if a < b {
        assert(nodes[a].id != nodes[b].id);
    } else if b < a {
        assert(nodes[b].id != nodes[a].id);
    }
}

/// Of two chosen nodes of one failure domain the one with more room comes first.
pub proof fn a_domain_gives_its_roomiest_node_first(
    nodes: Seq<NodeInfo>,
    count: int,
    i: int,
    j: int,
    a: int,
    b: int,
)
    requires
        node_ids_distinct(nodes),
        nodes.len() <= u64::MAX,
        0 <= i < j < selection(nodes, count).len(),
        0 <= a < nodes.len(),
        0 <= b < nodes.len(),
        selection(nodes, count)[i] == nodes[a].id as u128,
        selection(nodes, count)[j] == nodes[b].id as u128,
        nodes[a].domain() == nodes[b].domain(),
    ensures
        nodes[b].capacity_bytes <= nodes[b].used_bytes || nodes[a].capacity_bytes
            - nodes[a].used_bytes >= nodes[b].capacity_bytes - nodes[b].used_bytes,
{
    let groups = domains(nodes);
    lemma_domains(nodes);
    let places = lemma_choices(nodes, count);
    lemma_choice_is_node(nodes, count, places, i, a);
    lemma_choice_is_node(nodes, count, places, j, b);
    let (r, g) = places[i];
    let (q, h) = places[j];
    lemma_same_domain_same_group(nodes, a, b, g, r, h, q);
    assert(r < q);
    assert(groups[g].slots[r].free >= groups[g].slots[q].free);
}

/// Every failure domain gives a node before any gives a second one: when a second node of
/// a domain is chosen, each node's domain has given one already.
pub proof fn every_domain_gives_one_first(
    nodes: Seq<NodeInfo>,
    count: int,
    i: int,
    j: int,
    a: int,
    b: int,
    other: int,
)
    requires
        node_ids_distinct(nodes),
        nodes.len() <= u64::MAX,
        0 <= count,
        0 <= i < j < selection(nodes, count).len(),
        0 <= a < nodes.len(),
        0 <= b < nodes.len(),
        0 <= other < nodes.len(),
        selection(nodes, count)[i] == nodes[a].id as u128,
        selection(nodes, count)[j] == nodes[b].id as u128,
        nodes[a].domain() == nodes[b].domain(),
    ensures
        exists|x: int, c: int|
            0 <= x < j && 0 <= c < nodes.len() && #[trigger] selection(nodes, count)[x]
                == (#[trigger] nodes[c]).id as u128 && nodes[c].domain() == nodes[other].domain(),
{
    let groups = domains(nodes);
    let result = selection(nodes, count);
    lemma_domains(nodes);
    let places = lemma_choices(nodes, count);
    lemma_choice_is_node(nodes, count, places, i, a);
    lemma_choice_is_node(nodes, count, places, j, b);
    let (r, g) = places[i];
    let (q, h) = places[j];
    lemma_same_domain_same_group(nodes, a, b, g, r, h, q);
    assert(r < q);
    selection_is_spread_over_domains(nodes, count);
    let (rounds, upto) = choose|rounds: int, upto: int|
        0 <= rounds && #[trigger] balanced(groups, result, rounds, upto);
    assert(result[j] == groups[h].slots[q].id);
    assert(result.contains(groups[h].slots[q].id));
    assert(rounds >= 1);
    let (d, l) = lemma_place_of_node(nodes, other);
    assert(result.contains(groups[d].slots[0].id));
    let x = choose|x: int| 0 <= x < result.len() && result[x] == groups[d].slots[0].id;
    let (r2, g2) = places[x];
    assert(groups[g2].slots[r2].id == groups[d].slots[0].id);
    assert(r2 == 0 && g2 == d);
    assert(x < j) by {
        if x > j {
            assert(places[j].0 < places[x].0 || places[j].0 == places[x].0);
        }
    }
    let c = lemma_node_at_place(nodes, d, 0);
    lemma_same_domain_same_group(nodes, c, other, d, 0, d, l);
    assert(result[x] == nodes[c].id as u128);
}

/// Among the nodes that are the first of their failure domains to be chosen, those with
/// more room come first.
pub proof fn domains_with_more_room_go_first(
    nodes: Seq<NodeInfo>,
    count: int,
    i: int,
    j: int,
    a: int,
    b: int,
)
    requires
        node_ids_distinct(nodes),
        nodes.len() <= u64::MAX,
        0 <= count,
        0 <= i < j < selection(nodes, count).len(),
        0 <= a < nodes.len(),
        0 <= b < nodes.len(),
        selection(nodes, count)[i] == nodes[a].id as u128,
        selection(nodes, count)[j] == nodes[b].id as u128,
        forall|x: int, c: int|
            0 <= x < j && 0 <= c < nodes.len() && #[trigger] selection(nodes, count)[x]
                == (#[trigger] nodes[c]).id as u128 ==> nodes[c].domain() != nodes[b].domain(),
        forall|x: int, c: int|
            0 <= x < i && 0 <= c < nodes.len() && #[trigger] selection(nodes, count)[x]
                == (#[trigger] nodes[c]).id as u128 ==> nodes[c].domain() != nodes[a].domain(),
    ensures
        nodes[b].capacity_bytes <= nodes[b].used_bytes || nodes[a].capacity_bytes
            - nodes[a].used_bytes >= nodes[b].capacity_bytes - nodes[b].used_bytes,
{
    let groups = domains(nodes);
    lemma_domains(nodes);
    let places = lemma_choices(nodes, count);
    lemma_choice_is_node(nodes, count, places, i, a);
    lemma_choice_is_node(nodes, count, places, j, b);
    let (r, g) = places[i];
    let (q, h) = places[j];
    lemma_first_of_domain(nodes, count, places, i, a);
    lemma_first_of_domain(nodes, count, places, j, b);
    assert(r == 0 && q == 0 && g < h);
    assert(Measure::Freest.of(groups[g].slots) >= Measure::Freest.of(groups[h].slots));
}

proof fn lemma_first_of_domain(
    nodes: Seq<NodeInfo>,
    count: int,
    places: Seq<(int, int)>,
    j: int,
    b: int,
)
    requires
        node_ids_distinct(nodes),
        nodes.len() <= u64::MAX,
        0 <= count,
        comes_from(domains(nodes), selection(nodes, count), places),
        0 <= j < selection(nodes, count).len(),
        0 <= b < nodes.len(),
        selection(nodes, count)[j] == nodes[b].id as u128,
        forall|x: int, c: int|
            0 <= x < j && 0 <= c < nodes.len() && #[trigger] selection(nodes, count)[x]
                == (#[trigger] nodes[c]).id as u128 ==> nodes[c].domain() != nodes[b].domain(),
    ensures
        places[j].0 == 0,
{
    let groups = domains(nodes);
    let result = selection(nodes, count);
    lemma_domains(nodes);
    lemma_choice_is_node(nodes, count, places, j, b);
    let (q, h) = places[j];
    if q > 0 {
        selection_is_spread_over_domains(nodes, count);
        let (rounds, upto) = choose|rounds: int, upto: int|
            0 <= rounds && #[trigger] balanced(groups, result, rounds, upto);
        assert(result.contains(groups[h].slots[q].id));
        assert(rounds >= 1);
        assert(result.contains(groups[h].slots[0].id));
        let x = choose|x: int| 0 <= x < result.len() && result[x] == groups[h].slots[0].id;
        let (r2, g2) = places[x];
        assert(groups[g2].slots[r2].id == groups[h].slots[0].id);
        assert(r2 == 0 && g2 == h);
        assert(x < j) by {
            if x > j {
                assert(places[j].0 < places[x].0 || places[j].0 == places[x].0);
            }
        }
        let c = lemma_node_at_place(nodes, h, 0);
        lemma_same_domain_same_group(nodes, c, b, h, 0, h, q);
        assert(result[x] == nodes[c].id as u128);
    }
}

/// A node's failure domain is the rack that its first tag of that name gives; without one
/// it is the node's own, which no other node shares.
pub proof fn domains_are_racks_or_nodes(node: NodeInfo, other: NodeInfo)
    ensures
        forall|i: int|
            0 <= i < node.tags@.len() && (#[trigger] node.tags@[i]).0@ == "rack"@ && (forall|j: int|
                0 <= j < i ==> (#[trigger] node.tags@[j]).0@ != "rack"@) ==> node.domain()
                == node.tags@[i].1@,
        (forall|i: int| 0 <= i < node.tags@.len() ==> (#[trigger] node.tags@[i]).0@ != "rack"@) && (
        forall|i: int| 0 <= i < other.tags@.len() ==> (#[trigger] other.tags@[i]).0@ != "rack"@)
            ==> (node.domain() == other.domain() <==> node.id == other.id),
{
    lemma_rack_of(node.tags@);
    lemma_rack_of(other.tags@);
    if rack_of(node.tags@) is None && rack_of(other.tags@) is None && node.domain()
        == other.domain() {
        let head = "__node_"@;
        assert(node.domain().skip(head.len() as int) =~= decimal(node.id as nat));
        assert(other.domain().skip(head.len() as int) =~= decimal(other.id as nat));
        crate::text::decimal_is_injective(node.id as nat, other.id as nat);
    }
}

proof fn lemma_rack_of(tags: Seq<(String, String)>)
    ensures
        forall|i: int|
            0 <= i < tags.len() && (#[trigger] tags[i]).0@ == "rack"@ && (forall|j: int|
                0 <= j < i ==> (#[trigger] tags[j]).0@ != "rack"@) ==> rack_of(tags) == Some(
                tags[i].1@,
            ),
        (forall|i: int| 0 <= i < tags.len() ==> (#[trigger] tags[i]).0@ != "rack"@) ==> rack_of(
            tags,
        ) is None,
    decreases tags.len(),
{
    if tags.len() > 0 && tags[0].0@ != "rack"@ {
        let rest = tags.skip(1);
        lemma_rack_of(rest);
        assert forall|i: int|
            0 <= i < tags.len() && (#[trigger] tags[i]).0@ == "rack"@ && (forall|j: int|
                0 <= j < i ==> (#[trigger] tags[j]).0@ != "rack"@) implies rack_of(tags) == Some(
            tags[i].1@,
        ) by {
            assert(rest[i - 1] == tags[i]);
            assert forall|j: int| 0 <= j < i - 1 implies (#[trigger] rest[j]).0@ != "rack"@ by {
                assert(rest[j] == tags[j + 1]);
            }
        }
        if forall|i: int| 0 <= i < tags.len() ==> (#[trigger] tags[i]).0@ != "rack"@ {
            assert forall|i: int| 0 <= i < rest.len() implies (#[trigger] rest[i]).0@
                != "rack"@ by {
                assert(rest[i] == tags[i + 1]);
            }
        }
    } else if tags.len() > 0 {
        assert forall|i: int|
            0 <= i < tags.len() && (#[trigger] tags[i]).0@ == "rack"@ && (forall|j: int|
                0 <= j < i ==> (#[trigger] tags[j]).0@ != "rack"@) implies rack_of(tags) == Some(
            tags[i].1@,
        ) by {
            if i > 0 {
                assert(tags[0].0@ != "rack"@);
            }
        }
    }
}

/// Chunks may go to exactly the candidates that are healthy and whose pool is online, each
/// as often as it was given.
pub proof fn only_healthy_nodes_are_eligible(candidates: Seq<NodeInfo>, node: NodeInfo)
    ensures
        eligible_nodes(candidates).contains(node) <==> candidates.contains(node) && node.state
            == NodeState::Healthy && node.zfs_health == ZfsHealthState::Online,
        (forall|i: int|
            0 <= i < candidates.len() ==> (#[trigger] candidates[i]).state is Healthy
                && candidates[i].zfs_health is Online) ==> eligible_nodes(candidates) == candidates,
    decreases candidates.len(),
{
    reveal(Seq::filter);
    if candidates.len() > 0 {
        let front = candidates.drop_last();
        let last = candidates.last();
        only_healthy_nodes_are_eligible(front, node);
        lemma_push_contains(front, last, node);
        lemma_push_contains(eligible_nodes(front), last, node);
        assert(front.push(last) =~= candidates);
        if forall|i: int|
            0 <= i < candidates.len() ==> (#[trigger] candidates[i]).state is Healthy
                && candidates[i].zfs_health is Online {
            assert forall|i: int| 0 <= i < front.len() implies (#[trigger] front[i]).state is Healthy
                && front[i].zfs_health is Online by {
                assert(front[i] == candidates[i]);
            }
            assert(candidates[candidates.len() - 1].state is Healthy);
        }
    }
}

proof fn lemma_spread_keeps_first(
    groups: Seq<GroupModel>,
    round: int,
    chosen: Seq<u128>,
    count: int,
)
    requires
        chosen.len() > 0,
    ensures
        spread(groups, round, chosen, count).len() > 0,
        spread(groups, round, chosen, count)[0] == chosen[0],
    decreases
        (if chosen.len() < count {
            count - chosen.len()
        } else {
            0
        }),
{
    if chosen.len() < count {
        let n = groups.len() as int;
        let next = after_round(groups, round, n, chosen, count);
        lemma_round_extends(groups, round, n, chosen, count);
        assert(next.take(chosen.len() as int)[0] == next[0]);
        if next.len() > chosen.len() {
            lemma_spread_keeps_first(groups, round + 1, next, count);
        }
    }
}

proof fn lemma_round_starts_with_first(groups: Seq<GroupModel>, upto: int, count: int)
    requires
        1 <= upto <= groups.len(),
        1 <= count,
        groups[0].slots.len() > 0,
    ensures
        after_round(groups, 0, upto, Seq::empty(), count).len() > 0,
        after_round(groups, 0, upto, Seq::empty(), count)[0] == groups[0].slots[0].id,
    decreases upto,
{
    reveal_with_fuel(after_round, 2);
    if upto > 1 {
        lemma_round_starts_with_first(groups, upto - 1, count);
    }
}

/// The first choice is a node with the most free space of all.
pub proof fn first_choice_is_the_freest(nodes: Seq<NodeInfo>, count: int)
    requires
        0 < nodes.len(),
        1 <= count,
    ensures
        selection(nodes, count).len() > 0,
        exists|i: int|
            0 <= i < nodes.len() && (#[trigger] nodes[i]).id as u128 == selection(nodes, count)[0]
                && forall|j: int|
                0 <= j < nodes.len() ==> nodes[i].free() >= (#[trigger] nodes[j]).free() && (
                nodes[j].capacity_bytes <= nodes[j].used_bytes || nodes[i].capacity_bytes
                    - nodes[i].used_bytes >= nodes[j].capacity_bytes - nodes[j].used_bytes),
{
    let groups = domains(nodes);
    let n = groups.len() as int;
    lemma_domains(nodes);
    let at = lemma_place_of_node(nodes, 0);
    let none = Seq::<u128>::empty();
    let next = after_round(groups, 0, n, none, count);
    lemma_round_starts_with_first(groups, n, count);
    assert(next.len() > none.len());
    assert(selection(nodes, count) == spread(groups, 1, next, count));
    lemma_spread_keeps_first(groups, 1, next, count);
    let i = lemma_node_at_place(nodes, 0, 0);
    assert(nodes[i].id as u128 == selection(nodes, count)[0]);
    assert forall|j: int| 0 <= j < nodes.len() implies nodes[i].free() >= (
    #[trigger] nodes[j]).free() && (nodes[j].capacity_bytes <= nodes[j].used_bytes
        || nodes[i].capacity_bytes - nodes[i].used_bytes >= nodes[j].capacity_bytes
        - nodes[j].used_bytes) by {
        let (h, l) = lemma_place_of_node(nodes, j);
        if h > 0 {
            assert(Measure::Freest.of(groups[0].slots) >= Measure::Freest.of(groups[h].slots));
        }
        if l > 0 {
            assert(groups[h].slots[0].free >= groups[h].slots[l].free);
        }
    }
}

/// The nodes that references point at.
pub open spec fn pointees(nodes: Seq<&NodeInfo>) -> Seq<NodeInfo> {
    nodes.map_values(|n: &NodeInfo| *n)
}

fn collect_eligible(candidates: &[NodeInfo]) -> (r: Vec<&NodeInfo>)
    ensures
        pointees(r@) == eligible_nodes(candidates@),
{
    let ghost want = |n: NodeInfo| n.is_eligible();
    let mut r: Vec<&NodeInfo> = Vec::new();
    let mut i: usize = 0;
    proof {
        reveal(Seq::filter);
        assert(pointees(r@) =~= candidates@.take(0).filter(want));
    }
    while i < candidates.len()
        invariant
            i <= candidates@.len(),
            want == (|n: NodeInfo| n.is_eligible()),
            pointees(r@) == candidates@.take(i as int).filter(want),
        decreases candidates@.len() - i,
    {
        let ghost had = r@;
        if candidates[i].eligible() {
            r.push(&candidates[i]);
            assert(pointees(r@) =~= pointees(had).push(candidates@[i as int]));
        }
        i = i + 1;
        proof {
            reveal(Seq::filter);
            assert(candidates@.take(i as int).drop_last() =~= candidates@.take(i - 1));
        }
    }
    assert(candidates@.take(candidates@.len() as int) =~= candidates@);
    r
}

fn make_slots(nodes: &Vec<&NodeInfo>) -> (r: Vec<Slot>)
    ensures
        r@ == node_slots(pointees(nodes@)),
{
    let ghost all = pointees(nodes@);
    let mut domains: Vec<String> = Vec::new();
    let mut i: usize = 0;
    while i < nodes.len()
        invariant
            i <= nodes@.len(),
            all == pointees(nodes@),
            domains@.len() == i,
            forall|j: int| 0 <= j < i ==> (#[trigger] domains@[j])@ == all[j].domain(),
        decreases nodes@.len() - i,
    {
        domains.push(nodes[i].failure_domain());
        i = i + 1;
    }
    let mut r: Vec<Slot> = Vec::new();
    let mut i: usize = 0;
    while i < nodes.len()
        invariant
            i <= nodes@.len(),
            all == pointees(nodes@),
            domains@.len() == nodes@.len(),
            forall|j: int|
                0 <= j < nodes@.len() ==> (#[trigger] domains@[j])@ == all[j].domain(),
            r@.len() == i,
            forall|j: int| 0 <= j < i ==> r@[j] == #[trigger] node_slots(all)[j],
        decreases nodes@.len() - i,
    {
        let mut d: usize = 0;
        while d < i && !same_text(domains[d].as_str(), domains[i].as_str())
            invariant
                d <= i < nodes@.len(),
                all == pointees(nodes@),
                domains@.len() == nodes@.len(),
                forall|j: int|
                    0 <= j < nodes@.len() ==> (#[trigger] domains@[j])@ == all[j].domain(),
                domain_search(all, all[i as int].domain(), 0) == domain_search(
                    all,
                    all[i as int].domain(),
                    d as int,
                ),
            decreases i - d,
        {
            d = d + 1;
        }
        assert(all[d as int].domain() == all[i as int].domain());
        let node = nodes[i];
        r.push(Slot { key: d as u128, free: node.free_bytes(), id: node.id as u128 });
        i = i + 1;
    }
    assert(r@ =~= node_slots(all));
    r
}

/// Node numbers as identifiers of places.
pub open spec fn wide(ids: Seq<u64>) -> Seq<u128> {
    ids.map_values(|id: u64| id as u128)
}

/// Spread nodes across failure domains by round-robin interleaving, then
/// select `count` nodes sorted by free capacity (descending): the domains take turns in
/// the order of their freest nodes, and each gives its freest node first.
fn spread_and_select(nodes: &Vec<&NodeInfo>, count: usize) -> (r: Vec<RaftNodeId>)
    ensures
        wide(r@) == selection(pointees(nodes@), count as int),
{
    let slots = make_slots(nodes);
    let groups = rank_groups(group_slots(&slots), Measure::Freest);
    let ghost views = domains(pointees(nodes@));
    let ghost total = count as int;
    assert(group_views(groups@).len() == groups@.len());
    assert forall|g: int, k: int| 0 <= g < views.len() && 0 <= k < views[g].slots.len() implies (
    #[trigger] views[g].slots[k]).id <= u64::MAX by {
        let i = lemma_node_at_place(pointees(nodes@), g, k);
        assert(views[g].slots[k] == node_slots(pointees(nodes@))[i]);
    }
    let mut chosen: Vec<RaftNodeId> = Vec::new();
    let mut round: usize = 0;
    assert(wide(chosen@) =~= Seq::<u128>::empty());
    while chosen.len() < count
        invariant
            total == count,
            chosen@.len() <= count,
            views == group_views(groups@),
            views.len() == groups@.len(),
            forall|g: int, k: int|
                0 <= g < views.len() && 0 <= k < views[g].slots.len() ==> (
                #[trigger] views[g].slots[k]).id <= u64::MAX,
            round <= chosen@.len(),
            wide(chosen@).no_duplicates(),
            spread(views, round as int, wide(chosen@), total) == spread(
                views,
                0,
                Seq::empty(),
                total,
            ),
        ensures
            wide(chosen@) == spread(views, 0, Seq::empty(), total),
        decreases count - chosen@.len(),
    {
        let ghost start = wide(chosen@);
        let before = chosen.len();
        let mut g: usize = 0;
        while g < groups.len()
            invariant
                g <= groups@.len(),
                total == count,
                views == group_views(groups@),
                views.len() == groups@.len(),
                forall|h: int, k: int|
                    0 <= h < views.len() && 0 <= k < views[h].slots.len() ==> (
                    #[trigger] views[h].slots[k]).id <= u64::MAX,
                start.no_duplicates(),
                start.len() <= total,
                chosen@.len() <= count,
                wide(chosen@) == after_round(views, round as int, g as int, start, total),
            decreases groups@.len() - g,
        {
            assert(views[g as int] == groups@[g as int]@);
            let ghost had = chosen@;
            let slots = &groups[g].slots;
            if chosen.len() < count && round < slots.len() {
                let id: u64 = slots[round].id as u64;
                assert(views[g as int].slots[round as int].id <= u64::MAX);
                assert(slots@[round as int].id == id as u128);
                if !contains_id(&chosen, id) {
                    proof {
                        if wide(had).contains(id as u128) {
                            let i = choose|i: int|
                                0 <= i < wide(had).len() && wide(had)[i] == id as u128;
                            assert(had[i] == id);
                        }
                    }
                    chosen.push(id);
                    assert(wide(chosen@) =~= wide(had).push(id as u128));
                } else {
                    proof {
                        let i = choose|i: int| 0 <= i < had.len() && had[i] == id;
                        assert(wide(had)[i] == id as u128);
                    }
                }
            }
            g = g + 1;
        }
        proof {
            lemma_after_round(views, round as int, views.len() as int, start, total);
        }
        if chosen.len() == before {
            proof {
                lemma_round_extends(views, round as int, views.len() as int, start, total);
                assert(wide(chosen@) =~= start);
            }
            break;
        }
        round = round + 1;
    }
    chosen
}

fn contains_id(ids: &Vec<RaftNodeId>, id: RaftNodeId) -> (r: bool)
    ensures
        r == ids@.contains(id),
{
    let mut i: usize = 0;
    while i < ids.len()
        invariant
            i <= ids@.len(),
            forall|j: int| 0 <= j < i ==> ids@[j] != id,
        decreases ids@.len() - i,
    {
        if ids[i] == id {
            assert(ids@[i as int] == id);
            return true;
        }
        i = i + 1;
    }
    false
}

/// Place the k+m chunks of an erasure-coded extent across different nodes,
/// respecting failure domain constraints.
///
/// Each chunk is placed on a distinct node, and chunks are spread across different
/// failure domains using round-robin interleaving.
///
/// # Errors
///
/// Returns an error if there are fewer eligible nodes than k+m.
pub fn place_extent_chunks(
    extent_id: u64,
    k: usize,
    m: usize,
    candidates: &[NodeInfo],
    _placement_engine: &PlacementEngine,
) -> (r: Result<EcPlacement, Error>)
    requires
        k + m <= usize::MAX,
    ensures
        ({
            let eligible = eligible_nodes(candidates@);
            let selected = selection(eligible, k + m);
            if eligible.len() < k + m {
                r is Err && r->Err_0 is Storage && r->Err_0->Storage_0@
                    == "not enough eligible nodes for EC("@ + decimal(k as nat) + "+"@ + decimal(
                    m as nat,
                ) + "): need "@ + decimal((k + m) as nat) + ", have "@ + decimal(eligible.len())
            } else {
                &&& r is Ok
                &&& r->Ok_0.extent_id == extent_id
                &&& r->Ok_0.chunks@.len() == selected.len()
                &&& forall|i: int|
                    0 <= i < selected.len() ==> {
                        let c = #[trigger] r->Ok_0.chunks@[i];
                        c.chunk_index == i && c.node_id == selected[i] && c.is_parity == (i >= k)
                    }
                &&& node_ids_distinct(eligible) ==> r->Ok_0.chunks@.len() == k + m
            }
        }),
{
    let total = k + m;
    let eligible = collect_eligible(candidates);
    assert(pointees(eligible@).len() == eligible@.len());
    if eligible.len() < total {
        let head = join4(
            "not enough eligible nodes for EC(",
            decimal_text(k as u64).as_str(),
            "+",
            decimal_text(m as u64).as_str(),
        );
        let tail = join4(
            head.as_str(),
            "): need ",
            decimal_text(total as u64).as_str(),
            ", have ",
        );
        return Err(
            Error::Storage(join2(tail.as_str(), decimal_text(eligible.len() as u64).as_str())),
        );
    }
    let selected = spread_and_select(&eligible, total);
    let ghost wanted = selection(eligible_nodes(candidates@), total as int);
    assert(wide(selected@) == wanted);
    assert(selected@.len() == wanted.len());
    let mut chunks: Vec<ChunkLocation> = Vec::new();
    let mut i: usize = 0;
    while i < selected.len()
        invariant
            i <= selected@.len(),
            chunks@.len() == i,
            wide(selected@) == wanted,
            forall|j: int|
                0 <= j < i ==> (#[trigger] chunks@[j]).chunk_index == j && chunks@[j].node_id
                    == wanted[j] && chunks@[j].is_parity == (j >= k),
        decreases selected@.len() - i,
    {
        assert(wide(selected@)[i as int] == wanted[i as int]);
        chunks.push(ChunkLocation { chunk_index: i, node_id: selected[i], is_parity: i >= k });
        i = i + 1;
    }
    proof {
        if node_ids_distinct(eligible_nodes(candidates@)) {
            selection_is_complete(eligible_nodes(candidates@), total as int);
        }
    }
    Ok(EcPlacement { extent_id, chunks })
}

/// The domains take their turns in the same order in every round: the choices come round by
/// round, in each round in the order of the domains, and the choice of a round is the node
/// of the domain that stands at the round's place.
pub proof fn domains_take_turns_in_one_order(nodes: Seq<NodeInfo>, count: int)
    ensures
        exists|places: Seq<(int, int)>| #[trigger]
            comes_from(domains(nodes), selection(nodes, count), places),
{
    let places = lemma_choices(nodes, count);
    assert(comes_from(domains(nodes), selection(nodes, count), places));
}

/// The failure domains hold exactly the given nodes, each with its number and what it has
/// left; a domain holds nodes of one failure domain only, those with more room first.
pub proof fn domains_hold_the_nodes(nodes: Seq<NodeInfo>, g: int, k: int, l: int)
    requires
        nodes.len() <= u64::MAX,
        0 <= g < domains(nodes).len(),
        0 <= k <= l < domains(nodes)[g].slots.len(),
    ensures
        exists|a: int, b: int|
            {
                &&& 0 <= a < nodes.len()
                &&& 0 <= b < nodes.len()
                &&& (#[trigger] nodes[a]).id as u128 == domains(nodes)[g].slots[k].id
                &&& (#[trigger] nodes[b]).id as u128 == domains(nodes)[g].slots[l].id
                &&& nodes[a].domain() == nodes[b].domain()
                &&& nodes[b].capacity_bytes <= nodes[b].used_bytes || nodes[a].capacity_bytes
                    - nodes[a].used_bytes >= nodes[b].capacity_bytes - nodes[b].used_bytes
            },
{
    let groups = domains(nodes);
    lemma_domains(nodes);
    let a = lemma_node_at_place(nodes, g, k);
    let b = lemma_node_at_place(nodes, g, l);
    lemma_same_domain_same_group(nodes, a, b, g, k, g, l);
    if k < l {
        assert(groups[g].slots[k].free >= groups[g].slots[l].free);
    }
    assert(nodes[a].id as u128 == groups[g].slots[k].id);
    assert(nodes[b].id as u128 == groups[g].slots[l].id);
}

} // verus!
