//! Consolidated heartbeats: one message between two nodes for all the groups
//! that they share.

use crate::collections::lemma_push_contains;
use crate::types::{RaftGroupId, RaftNodeId};
use std::collections::BTreeMap;
use vstd::prelude::*;

verus! {

broadcast use vstd::std_specs::btree::group_btree_axioms;

/// The groups that two nodes share, as seen from the first.
#[derive(Clone, Debug)]
pub struct PairGroups {
    pub from: RaftNodeId,
    pub to: RaftNodeId,
    pub groups: Vec<RaftGroupId>,
}

/// A heartbeat from one node to another for all the groups that they share.
#[derive(Clone, Debug)]
pub struct ConsolidatedHeartbeat {
    pub from: RaftNodeId,
    pub to: RaftNodeId,
    pub groups: Vec<RaftGroupId>,
}

/// Whether a list of pairs says that two nodes share a group.
pub open spec fn shares_in(pairs: Seq<PairGroups>, from: u64, to: u64, group: u64) -> bool {
    exists|i: int|
        0 <= i < pairs.len() && (#[trigger] pairs[i]).from == from && pairs[i].to == to
            && pairs[i].groups@.contains(group)
}

/// Each pair occurs once, with at least one group, and each group once.
pub open spec fn pairs_wf(pairs: Seq<PairGroups>) -> bool {
    &&& forall|i: int, j: int|
        #![trigger pairs[i], pairs[j]]
        0 <= i < j < pairs.len() ==> !(pairs[i].from == pairs[j].from && pairs[i].to
            == pairs[j].to)
    &&& forall|i: int|
        0 <= i < pairs.len() ==> (#[trigger] pairs[i]).groups@.len() > 0
            && pairs[i].groups@.no_duplicates()
}

/// Adds a group to what two nodes share.
fn add_group(pairs: &mut Vec<PairGroups>, from: u64, to: u64, group: u64)
    requires
        pairs_wf(old(pairs)@),
    ensures
        pairs_wf(final(pairs)@),
        forall|a: u64, b: u64, g: u64|
            #![trigger shares_in(final(pairs)@, a, b, g)]
            shares_in(final(pairs)@, a, b, g) <==> shares_in(old(pairs)@, a, b, g) || (a == from
                && b == to && g == group),
{
    let ghost before = pairs@;
    let mut i: usize = 0;
    while i < pairs.len()
        invariant
            i <= pairs@.len(),
            pairs@ == before,
            before == old(pairs)@,
            pairs_wf(before),
            forall|j: int|
                0 <= j < i ==> !((#[trigger] before[j]).from == from && before[j].to == to),
        decreases pairs@.len() - i,
    {
        if pairs[i].from == from && pairs[i].to == to {
            let mut k: usize = 0;
            while k < pairs[i].groups.len()
                invariant
                    i < pairs@.len(),
                    pairs@ == before,
                    before == old(pairs)@,
                    pairs_wf(before),
                    before[i as int].from == from,
                    before[i as int].to == to,
                    k <= before[i as int].groups@.len(),
                    forall|j: int| 0 <= j < k ==> before[i as int].groups@[j] != group,
                decreases before[i as int].groups@.len() - k,
            {
                if pairs[i].groups[k] == group {
                    proof {
                        assert(before[i as int].groups@.contains(group));
                        assert(shares_in(before, before[i as int].from, before[i as int].to, group));
                    }
                    return;
                }
                k = k + 1;
            }
            let ghost had = before[i as int].groups@;
            pairs[i].groups.push(group);
            proof {
                let after = pairs@;
                assert(after[i as int].groups@ =~= had.push(group));
                assert(forall|j: int| 0 <= j < after.len() && j != i ==> after[j] == before[j]);
                assert(!had.contains(group));
                assert forall|j: int| 0 <= j < after.len() implies (
                #[trigger] after[j]).groups@.len() > 0 && after[j].groups@.no_duplicates() by {
                    assert(before[j].groups@.no_duplicates());
                }
                assert forall|a: u64, b: u64, g: u64| #[trigger] shares_in(
                    after,
                    a,
                    b,
                    g,
                ) <==> shares_in(before, a, b, g) || (a == from && b == to && g == group) by {
                    if shares_in(after, a, b, g) {
                        let j = choose|j: int|
                            0 <= j < after.len() && (#[trigger] after[j]).from == a && after[j].to
                                == b && after[j].groups@.contains(g);
                        if j == i && g != group {
                            let x = choose|x: int|
                                0 <= x < after[j].groups@.len() && after[j].groups@[x] == g;
                            assert(had[x] == g);
                        }
                        assert(before[j].from == a);
                    }
                    if shares_in(before, a, b, g) {
                        let j = choose|j: int|
                            0 <= j < before.len() && (#[trigger] before[j]).from == a
                                && before[j].to == b && before[j].groups@.contains(g);
                        if j == i {
                            let x = choose|x: int| 0 <= x < had.len() && had[x] == g;
                            assert(after[j].groups@[x] == g);
                        }
                        assert(after[j].from == a);
                    }
                    if a == from && b == to && g == group {
                        assert(after[i as int].groups@[had.len() as int] == g);
                    }
                }
            }
            return;
        }
        i = i + 1;
    }
    let mut groups: Vec<RaftGroupId> = Vec::new();
    groups.push(group);
    pairs.push(PairGroups { from, to, groups });
    proof {
        let after = pairs@;
        let n = before.len() as int;
        assert(after[n].groups@[0] == group);
        assert forall|a: u64, b: u64, g: u64| #[trigger] shares_in(after, a, b, g) <==> shares_in(
            before,
            a,
            b,
            g,
        ) || (a == from && b == to && g == group) by {
            if shares_in(after, a, b, g) {
                let j = choose|j: int|
                    0 <= j < after.len() && (#[trigger] after[j]).from == a && after[j].to == b
                        && after[j].groups@.contains(g);
                if j < n {
                    assert(before[j] == after[j]);
                }
            }
            if shares_in(before, a, b, g) {
                let j = choose|j: int|
                    0 <= j < before.len() && (#[trigger] before[j]).from == a && before[j].to == b
                        && before[j].groups@.contains(g);
                assert(after[j] == before[j]);
            }
            if a == from && b == to && g == group {
                assert(after[n].from == a);
            }
        }
        assert forall|x: int, y: int| 0 <= x < y < after.len() implies !((#[trigger] after[x]).from
            == (#[trigger] after[y]).from && after[x].to == after[y].to) by {
            assert(after[x] == before[x]);
            if y < n {
                assert(after[y] == before[y]);
            }
        }
    }
}

/// Takes a group out of what every two nodes share; pairs without a group leave.
fn drop_group(pairs: &Vec<PairGroups>, group: u64) -> (r: Vec<PairGroups>)
    requires
        pairs_wf(pairs@),
    ensures
        pairs_wf(r@),
        forall|a: u64, b: u64, g: u64|
            #![trigger shares_in(r@, a, b, g)]
            shares_in(r@, a, b, g) <==> shares_in(pairs@, a, b, g) && g != group,
{
    let mut r: Vec<PairGroups> = Vec::new();
    let mut i: usize = 0;
    while i < pairs.len()
        invariant
            i <= pairs@.len(),
            pairs_wf(pairs@),
            pairs_wf(r@),
            forall|j: int|
                0 <= j < r@.len() ==> exists|k: int|
                    0 <= k < i && (#[trigger] pairs@[k]).from == (#[trigger] r@[j]).from
                        && pairs@[k].to == r@[j].to,
            forall|a: u64, b: u64, g: u64|
                #![trigger shares_in(r@, a, b, g)]
                shares_in(r@, a, b, g) <==> shares_in(pairs@.take(i as int), a, b, g) && g != group,
        decreases pairs@.len() - i,
    {
        let ghost had = r@;
        let pair = &pairs[i];
        let mut groups: Vec<RaftGroupId> = Vec::new();
        let mut k: usize = 0;
        while k < pair.groups.len()
            invariant
                k <= pair.groups@.len(),
                pair.groups@.no_duplicates(),
                groups@.no_duplicates(),
                forall|g: u64|
                    #![trigger groups@.contains(g)]
                    groups@.contains(g) <==> pair.groups@.take(k as int).contains(g) && g != group,
            decreases pair.groups@.len() - k,
        {
            let g = pair.groups[k];
            let ghost then = pair.groups@.take(k as int);
            let ghost had_groups = groups@;
            if g != group {
                groups.push(g);
            }
            k = k + 1;
            proof {
                let now = pair.groups@.take(k as int);
                assert(now =~= then.push(g));
                assert(!then.contains(g));
                assert(!had_groups.contains(g));
                assert forall|x: u64|
                    #![trigger groups@.contains(x)]
                    groups@.contains(x) <==> now.contains(x) && x != group by {
                    lemma_push_contains(then, g, x);
                    lemma_push_contains(had_groups, g, x);
                }
            }
        }
        assert(pair.groups@.take(pair.groups@.len() as int) =~= pair.groups@);
        let ghost then = pairs@.take(i as int);
        let ghost kept = groups@;
        if groups.len() > 0 {
            r.push(PairGroups { from: pair.from, to: pair.to, groups });
        }
        i = i + 1;
        proof {
            let now = pairs@.take(i as int);
            assert(now =~= then.push(*pair));
            if kept.len() > 0 {
                let n = had.len() as int;
                assert(r@ =~= had.push(r@[n]));
                assert(r@[n].groups@ == kept);
                assert forall|x: int, y: int| 0 <= x < y < r@.len() implies !((
                #[trigger] r@[x]).from == (#[trigger] r@[y]).from && r@[x].to == r@[y].to) by {
                    assert(r@[x] == had[x]);
                    if y < n {
                        assert(r@[y] == had[y]);
                    } else {
                        let k = choose|k: int|
                            0 <= k < i - 1 && (#[trigger] pairs@[k]).from == had[x].from
                                && pairs@[k].to == had[x].to;
                        assert(pairs@[i - 1] == *pair);
                    }
                }
                assert forall|j: int| 0 <= j < r@.len() implies exists|k: int|
                    0 <= k < i && (#[trigger] pairs@[k]).from == (#[trigger] r@[j]).from
                        && pairs@[k].to == r@[j].to by {
                    if j < n {
                        assert(r@[j] == had[j]);
                    } else {
                        assert(pairs@[i - 1].from == r@[j].from);
                    }
                }
            }
            assert forall|a: u64, b: u64, g: u64|
                #![trigger shares_in(r@, a, b, g)]
                shares_in(r@, a, b, g) <==> shares_in(now, a, b, g) && g != group by {
                assert(shares_in(had, a, b, g) <==> shares_in(then, a, b, g) && g != group);
                lemma_push_shares(then, *pair, a, b, g);
                if kept.len() > 0 {
                    lemma_push_shares(had, r@[had.len() as int], a, b, g);
                } else {
                    assert(!kept.contains(g));
                }
                assert(kept.contains(g) <==> pair.groups@.contains(g) && g != group);
            }
        }
    }
    assert(pairs@.take(pairs@.len() as int) =~= pairs@);
    r
}

proof fn lemma_push_shares(s: Seq<PairGroups>, p: PairGroups, a: u64, b: u64, g: u64)
    ensures
        shares_in(s.push(p), a, b, g) <==> shares_in(s, a, b, g) || (p.from == a && p.to == b
            && p.groups@.contains(g)),
{
    let t = s.push(p);
    if shares_in(s, a, b, g) {
        let j = choose|j: int|
            0 <= j < s.len() && (#[trigger] s[j]).from == a && s[j].to == b
                && s[j].groups@.contains(g);
        assert(t[j] == s[j]);
    }
    assert(t[s.len() as int] == p);
    if shares_in(t, a, b, g) {
        let j = choose|j: int|
            0 <= j < t.len() && (#[trigger] t[j]).from == a && t[j].to == b
                && t[j].groups@.contains(g);
        if j < s.len() {
            assert(s[j] == t[j]);
        }
    }
}

/// Which nodes share which groups, and when each node was last sent a heartbeat.
/// Times are in milliseconds on the caller's clock.
#[derive(Debug)]
pub struct HeartbeatConsolidator {
    shared_groups: Vec<PairGroups>,
    last_heartbeat: BTreeMap<u64, u64>,
    interval_ms: u64,
}

/// The time from one moment to another, or nothing where the clock ran back.
pub open spec fn elapsed_ms(since: u64, now_ms: u64) -> int {
    if now_ms >= since {
        now_ms - since
    } else {
        0
    }
}

impl HeartbeatConsolidator {
    /// Each pair of nodes is kept once, with at least one group, and each group once.
    pub closed spec fn wf(&self) -> bool {
        pairs_wf(self.shared_groups@)
    }

    /// Whether the first node sends heartbeats for a group to the second.
    pub closed spec fn shares(&self, from: u64, to: u64, group: u64) -> bool {
        shares_in(self.shared_groups@, from, to, group)
    }

    /// The ordered pairs of nodes that share a group.
    pub open spec fn pairs(&self) -> Set<(u64, u64)> {
        Set::new(|p: (u64, u64)| exists|g: u64| #[trigger] self.shares(p.0, p.1, g))
    }

    /// When each node was last sent a heartbeat.
    pub closed spec fn sent(&self) -> Map<u64, u64> {
        self.last_heartbeat@
    }

    /// The time between two heartbeats to a node.
    pub closed spec fn interval(&self) -> u64 {
        self.interval_ms
    }

    /// Whether a heartbeat to a node is due.
    pub open spec fn due(&self, to: u64, now_ms: u64) -> bool {
        self.sent().contains_key(to) ==> elapsed_ms(self.sent()[to], now_ms) >= self.interval()
    }

    /// A consolidator without groups.
    pub fn new(interval_ms: u64) -> (r: Self)
        ensures
            r.wf(),
            r.interval() == interval_ms,
            r.sent() == Map::<u64, u64>::empty(),
            forall|a: u64, b: u64, g: u64| !(#[trigger] r.shares(a, b, g)),
    {
        HeartbeatConsolidator {
            shared_groups: Vec::new(),
            last_heartbeat: BTreeMap::new(),
            interval_ms,
        }
    }

    /// Registers a group: every two different members share it.
    pub fn register_group(&mut self, group_id: RaftGroupId, members: &[RaftNodeId])
        requires
            old(self).wf(),
        ensures
            final(self).wf(),
            final(self).sent() == old(self).sent(),
            final(self).interval() == old(self).interval(),
            forall|a: u64, b: u64, g: u64|
                #![trigger final(self).shares(a, b, g)]
                final(self).shares(a, b, g) <==> old(self).shares(a, b, g) || (g == group_id && a
                    != b && members@.contains(a) && members@.contains(b)),
    {
        let ghost start = self.shared_groups@;
        let mut i: usize = 0;
        while i < members.len()
            invariant
                i <= members@.len(),
                pairs_wf(self.shared_groups@),
                self.last_heartbeat@ == old(self).last_heartbeat@,
                self.interval_ms == old(self).interval_ms,
                forall|a: u64, b: u64, g: u64|
                    #![trigger shares_in(self.shared_groups@, a, b, g)]
                    shares_in(self.shared_groups@, a, b, g) <==> shares_in(start, a, b, g) || (g
                        == group_id && a != b && members@.take(i as int).contains(a)
                        && members@.contains(b)),
            decreases members@.len() - i,
        {
            let a = members[i];
            let ghost mid = self.shared_groups@;
            let mut j: usize = 0;
            while j < members.len()
                invariant
                    i < members@.len(),
                    a == members@[i as int],
                    j <= members@.len(),
                    pairs_wf(self.shared_groups@),
                    self.last_heartbeat@ == old(self).last_heartbeat@,
                    self.interval_ms == old(self).interval_ms,
                    forall|x: u64, b: u64, g: u64|
                        #![trigger shares_in(self.shared_groups@, x, b, g)]
                        shares_in(self.shared_groups@, x, b, g) <==> shares_in(mid, x, b, g) || (g
                            == group_id && x == a && x != b && members@.take(j as int).contains(b)),
                decreases members@.len() - j,
            {
                let b = members[j];
                let ghost then = members@.take(j as int);
                let ghost before = self.shared_groups@;
                if a != b {
                    add_group(&mut self.shared_groups, a, b, group_id);
                }
                j = j + 1;
                proof {
                    assert(members@.take(j as int) =~= then.push(b));
                    assert forall|x: u64, y: u64, g: u64|
                        #![trigger shares_in(self.shared_groups@, x, y, g)]
                        shares_in(self.shared_groups@, x, y, g) <==> shares_in(mid, x, y, g) || (g
                            == group_id && x == a && x != y && members@.take(j as int).contains(
                            y,
                        )) by {
                        lemma_push_contains(then, b, y);
                        assert(shares_in(before, x, y, g) <==> shares_in(mid, x, y, g) || (g
                            == group_id && x == a && x != y && then.contains(y)));
                    }
                }
            }
            let ghost then = members@.take(i as int);
            i = i + 1;
            proof {
                assert(members@.take(members@.len() as int) =~= members@);
                assert(members@.take(i as int) =~= then.push(a));
                assert forall|x: u64, y: u64, g: u64|
                    #![trigger shares_in(self.shared_groups@, x, y, g)]
                    shares_in(self.shared_groups@, x, y, g) <==> shares_in(start, x, y, g) || (g
                        == group_id && x != y && members@.take(i as int).contains(x)
                        && members@.contains(y)) by {
                    lemma_push_contains(then, a, x);
                    assert(shares_in(mid, x, y, g) <==> shares_in(start, x, y, g) || (g == group_id
                        && x != y && then.contains(x) && members@.contains(y)));
                }
            }
        }
        assert(members@.take(members@.len() as int) =~= members@);
        assert forall|a: u64, b: u64, g: u64|
            #![trigger self.shares(a, b, g)]
            self.shares(a, b, g) <==> old(self).shares(a, b, g) || (g == group_id && a != b
                && members@.contains(a) && members@.contains(b)) by {
            assert(shares_in(self.shared_groups@, a, b, g) == self.shares(a, b, g));
        }
    }

    /// Takes a group out: nobody shares it any more.
    pub fn unregister_group(&mut self, group_id: RaftGroupId)
        requires
            old(self).wf(),
        ensures
            final(self).wf(),
            final(self).sent() == old(self).sent(),
            final(self).interval() == old(self).interval(),
            forall|a: u64, b: u64, g: u64|
                #![trigger final(self).shares(a, b, g)]
                final(self).shares(a, b, g) <==> old(self).shares(a, b, g) && g != group_id,
    {
        self.shared_groups = drop_group(&self.shared_groups, group_id);
        assert forall|a: u64, b: u64, g: u64|
            #![trigger self.shares(a, b, g)]
            self.shares(a, b, g) <==> old(self).shares(a, b, g) && g != group_id by {
            assert(shares_in(self.shared_groups@, a, b, g) == self.shares(a, b, g));
        }
    }

    /// The groups for which one node sends heartbeats to another, each once.
    pub fn groups_between(&self, from: RaftNodeId, to: RaftNodeId) -> (r: Vec<RaftGroupId>)
        requires
            self.wf(),
        ensures
            r@.no_duplicates(),
            forall|g: u64| #[trigger] r@.contains(g) <==> self.shares(from, to, g),
    {
        let mut i: usize = 0;
        while i < self.shared_groups.len()
            invariant
                i <= self.shared_groups@.len(),
                self.wf(),
                forall|j: int|
                    0 <= j < i ==> !((#[trigger] self.shared_groups@[j]).from == from
                        && self.shared_groups@[j].to == to),
            decreases self.shared_groups@.len() - i,
        {
            let pair = &self.shared_groups[i];
            if pair.from == from && pair.to == to {
                let r = crate::collections::copy_items(&pair.groups);
                proof {
                    assert forall|g: u64| #[trigger] r@.contains(g) <==> self.shares(
                        from,
                        to,
                        g,
                    ) by {
                        if self.shares(from, to, g) {
                            let j = choose|j: int|
                                0 <= j < self.shared_groups@.len() && (
                                #[trigger] self.shared_groups@[j]).from == from
                                    && self.shared_groups@[j].to == to
                                    && self.shared_groups@[j].groups@.contains(g);
                            assert(self.shared_groups@[i as int] == *pair);
                            assert(j == i);
                        }
                        if r@.contains(g) {
                            assert(self.shared_groups@[i as int] == *pair);
                        }
                    }
                }
                return r;
            }
            i = i + 1;
        }
        Vec::new()
    }

    /// The nodes to which a node sends heartbeats, each once.
    pub fn peers_for(&self, node: RaftNodeId) -> (r: Vec<RaftNodeId>)
        requires
            self.wf(),
        ensures
            r@.no_duplicates(),
            forall|p: u64| #[trigger] r@.contains(p) <==> self.pairs().contains((node, p)),
    {
        let mut r: Vec<RaftNodeId> = Vec::new();
        let mut i: usize = 0;
        while i < self.shared_groups.len()
            invariant
                i <= self.shared_groups@.len(),
                self.wf(),
                r@.no_duplicates(),
                forall|p: u64| #[trigger]
                    r@.contains(p) <==> exists|j: int|
                        0 <= j < i && (#[trigger] self.shared_groups@[j]).from == node
                            && self.shared_groups@[j].to == p,
            decreases self.shared_groups@.len() - i,
        {
            let ghost had = r@;
            let pair = &self.shared_groups[i];
            if pair.from == node {
                proof {
                    if had.contains(pair.to) {
                        let j = choose|j: int|
                            0 <= j < i && (#[trigger] self.shared_groups@[j]).from == node
                                && self.shared_groups@[j].to == pair.to;
                        assert(self.shared_groups@[i as int] == *pair);
                        assert(false);
                    }
                }
                r.push(pair.to);
            }
            i = i + 1;
            proof {
                assert forall|p: u64| #[trigger] r@.contains(p) <==> exists|j: int|
                    0 <= j < i && (#[trigger] self.shared_groups@[j]).from == node
                        && self.shared_groups@[j].to == p by {
                    lemma_push_contains(had, pair.to, p);
                    assert(self.shared_groups@[i - 1] == *pair);
                    if had.contains(p) {
                        let j = choose|j: int|
                            0 <= j < i - 1 && (#[trigger] self.shared_groups@[j]).from == node
                                && self.shared_groups@[j].to == p;
                        assert(self.shared_groups@[j].to == p);
                    }
                }
            }
        }
        proof {
            assert forall|p: u64| #[trigger] r@.contains(p) <==> self.pairs().contains((node, p)) by {
                if r@.contains(p) {
                    let j = choose|j: int|
                        0 <= j < self.shared_groups@.len() && (
                        #[trigger] self.shared_groups@[j]).from == node
                            && self.shared_groups@[j].to == p;
                    let g = self.shared_groups@[j].groups@[0];
                    assert(self.shared_groups@[j].groups@.contains(g));
                    assert(shares_in(self.shared_groups@, node, p, g));
                    let pair = (node, p);
                    assert(self.shares(pair.0, pair.1, g));
                    assert(self.pairs().contains(pair));
                }
                if self.pairs().contains((node, p)) {
                    let g = choose|g: u64| #[trigger] self.shares(node, p, g);
                    assert(shares_in(self.shared_groups@, node, p, g));
                    let j = choose|j: int|
                        0 <= j < self.shared_groups@.len() && (
                        #[trigger] self.shared_groups@[j]).from == node
                            && self.shared_groups@[j].to == p
                            && self.shared_groups@[j].groups@.contains(g);
                    assert(self.shared_groups@[j].from == node);
                    assert(r@.contains(p));
                }
            }
        }
        r
    }

    /// Whether a heartbeat to a node is due.
    pub fn should_heartbeat(&self, to: RaftNodeId, now_ms: u64) -> (r: bool)
        ensures
            r == self.due(to, now_ms),
    {
        match self.last_heartbeat.get(&to) {
            Some(t) => {
                let elapsed: u64 = if now_ms >= *t {
                    now_ms - *t
                } else {
                    0
                };
                elapsed >= self.interval_ms
            },
            None => true,
        }
    }

    /// Remembers that a node was sent a heartbeat.
    pub fn mark_heartbeat_sent(&mut self, to: RaftNodeId, now_ms: u64)
        ensures
            final(self).sent() == old(self).sent().insert(to, now_ms),
            final(self).interval() == old(self).interval(),
            old(self).wf() ==> final(self).wf(),
            forall|a: u64, b: u64, g: u64|
                #![trigger final(self).shares(a, b, g)]
                final(self).shares(a, b, g) == old(self).shares(a, b, g),
    {
        self.last_heartbeat.insert(to, now_ms);
    }

    /// The heartbeats that a node has to send now: one to each node with which it
    /// shares a group and to which one is due, for all the groups that they share.
    /// Those nodes are remembered as having been sent one.
    pub fn generate_heartbeats(&mut self, local_id: RaftNodeId, now_ms: u64) -> (r: Vec<
        ConsolidatedHeartbeat,
    >)
        requires
            old(self).wf(),
        ensures
            final(self).wf(),
            final(self).interval() == old(self).interval(),
            forall|a: u64, b: u64, g: u64|
                #![trigger final(self).shares(a, b, g)]
                final(self).shares(a, b, g) == old(self).shares(a, b, g),
            forall|i: int|
                0 <= i < r@.len() ==> {
                    &&& (#[trigger] r@[i]).from == local_id
                    &&& old(self).due(r@[i].to, now_ms)
                    &&& old(self).pairs().contains((local_id, r@[i].to))
                    &&& r@[i].groups@.no_duplicates()
                    &&& forall|g: u64| #[trigger]
                        r@[i].groups@.contains(g) <==> old(self).shares(local_id, r@[i].to, g)
                },
            forall|i: int, j: int|
                0 <= i < j < r@.len() ==> (#[trigger] r@[i]).to != (#[trigger] r@[j]).to,
            forall|p: u64|
                #![trigger old(self).due(p, now_ms)]
                old(self).pairs().contains((local_id, p)) && old(self).due(p, now_ms)
                    ==> exists|i: int| 0 <= i < r@.len() && (#[trigger] r@[i]).to == p,
            forall|p: u64| #[trigger]
                final(self).sent().contains_key(p) <==> old(self).sent().contains_key(p) || (old(
                    self,
                ).pairs().contains((local_id, p)) && old(self).due(p, now_ms)),
            forall|p: u64|
                #![trigger final(self).sent()[p]]
                final(self).sent().contains_key(p) ==> final(self).sent()[p] == (if old(
                    self,
                ).pairs().contains((local_id, p)) && old(self).due(p, now_ms) {
                    now_ms
                } else {
                    old(self).sent()[p]
                }),
    {
        let peers = self.peers_for(local_id);
        let mut r: Vec<ConsolidatedHeartbeat> = Vec::new();
        let mut i: usize = 0;
        while i < peers.len()
            invariant
                i <= peers@.len(),
                peers@.no_duplicates(),
                old(self).wf(),
                self.wf(),
                self.interval() == old(self).interval(),
                forall|p: u64| #[trigger]
                    peers@.contains(p) <==> old(self).pairs().contains((local_id, p)),
                forall|a: u64, b: u64, g: u64|
                    #![trigger self.shares(a, b, g)]
                    self.shares(a, b, g) == old(self).shares(a, b, g),
                forall|j: int|
                    0 <= j < r@.len() ==> {
                        &&& (#[trigger] r@[j]).from == local_id
                        &&& old(self).due(r@[j].to, now_ms)
                        &&& peers@.take(i as int).contains(r@[j].to)
                        &&& r@[j].groups@.no_duplicates()
                        &&& forall|g: u64| #[trigger]
                            r@[j].groups@.contains(g) <==> old(self).shares(local_id, r@[j].to, g)
                    },
                forall|a: int, b: int|
                    0 <= a < b < r@.len() ==> (#[trigger] r@[a]).to != (#[trigger] r@[b]).to,
                forall|k: int|
                    0 <= k < i && old(self).due(#[trigger] peers@[k], now_ms) ==> exists|j: int|
                        0 <= j < r@.len() && (#[trigger] r@[j]).to == peers@[k],
                forall|p: u64| #[trigger]
                    self.sent().contains_key(p) <==> old(self).sent().contains_key(p) || (
                    peers@.take(i as int).contains(p) && old(self).due(p, now_ms)),
                forall|p: u64|
                    #![trigger self.sent()[p]]
                    self.sent().contains_key(p) ==> self.sent()[p] == (if peers@.take(
                        i as int,
                    ).contains(p) && old(self).due(p, now_ms) {
                        now_ms
                    } else {
                        old(self).sent()[p]
                    }),
            decreases peers@.len() - i,
        {
            let peer = peers[i];
            let ghost then = peers@.take(i as int);
            let ghost had = r@;
            let ghost sent_before = self.sent();
            proof {
                assert(peers@.take(i + 1) =~= then.push(peer));
                assert(!then.contains(peer));
                assert(peers@.contains(peer));
                assert(self.sent().contains_key(peer) <==> old(self).sent().contains_key(peer));
                assert(self.due(peer, now_ms) == old(self).due(peer, now_ms));
            }
            if self.should_heartbeat(peer, now_ms) {
                let groups = self.groups_between(local_id, peer);
                proof {
                    let g = choose|g: u64| #[trigger] old(self).shares(local_id, peer, g);
                    assert(old(self).pairs().contains((local_id, peer)));
                    assert(old(self).shares(local_id, peer, g));
                    assert(self.shares(local_id, peer, g));
                    assert(groups@.contains(g));
                    assert forall|g: u64| #[trigger] groups@.contains(g) <==> old(self).shares(
                        local_id,
                        peer,
                        g,
                    ) by {
                        assert(self.shares(local_id, peer, g) == old(self).shares(
                            local_id,
                            peer,
                            g,
                        ));
                    }
                }
                r.push(ConsolidatedHeartbeat { from: local_id, to: peer, groups });
                self.mark_heartbeat_sent(peer, now_ms);
            }
            i = i + 1;
            proof {
                let now = peers@.take(i as int);
                assert forall|p: u64| #[trigger] now.contains(p) <==> then.contains(p) || p
                    == peer by {
                    lemma_push_contains(then, peer, p);
                }
                assert forall|k: int|
                    0 <= k < i && old(self).due(#[trigger] peers@[k], now_ms) implies exists|j: int|
                    0 <= j < r@.len() && (#[trigger] r@[j]).to == peers@[k] by {
                    if k < i - 1 {
                        let j = choose|j: int|
                            0 <= j < had.len() && (#[trigger] had[j]).to == peers@[k];
                        assert(r@[j].to == peers@[k]);
                    } else {
                        assert(r@[had.len() as int].to == peer);
                    }
                }
            }
        }
        assert(peers@.take(peers@.len() as int) =~= peers@);
        proof {
            assert forall|p: u64|
                #![trigger old(self).due(p, now_ms)]
                old(self).pairs().contains((local_id, p)) && old(self).due(
                    p,
                    now_ms,
                ) implies exists|j: int| 0 <= j < r@.len() && (#[trigger] r@[j]).to == p by {
                assert(peers@.contains(p));
                let k = choose|k: int| 0 <= k < peers@.len() && peers@[k] == p;
                assert(old(self).due(peers@[k], now_ms));
            }
        }
        r
    }

    /// The number of ordered pairs of nodes that share a group.
    pub fn total_pairs(&self) -> (r: usize)
        requires
            self.wf(),
        ensures
            r == self.pairs().len(),
    {
        proof {
            let keys = self.shared_groups@.map_values(|p: PairGroups| (p.from, p.to));
            assert(keys.no_duplicates());
            keys.unique_seq_to_set();
            assert forall|p: (u64, u64)| keys.to_set().contains(p) <==> #[trigger]
                self.pairs().contains(p) by {
                if keys.contains(p) {
                    let i = choose|i: int| 0 <= i < keys.len() && keys[i] == p;
                    let g = self.shared_groups@[i].groups@[0];
                    assert(self.shared_groups@[i].groups@.contains(g));
                    assert(self.shares(p.0, p.1, g));
                }
                if self.pairs().contains(p) {
                    let g = choose|g: u64| #[trigger] self.shares(p.0, p.1, g);
                    assert(shares_in(self.shared_groups@, p.0, p.1, g));
                    let i = choose|i: int|
                        0 <= i < self.shared_groups@.len() && (
                        #[trigger] self.shared_groups@[i]).from == p.0
                            && self.shared_groups@[i].to == p.1
                            && self.shared_groups@[i].groups@.contains(g);
                    assert(keys[i] == p);
                }
            }
            assert(keys.to_set() =~= self.pairs());
        }
        self.shared_groups.len()
    }
}

/// A heartbeat to a node is due exactly where none was sent yet, or the interval has gone by
/// since the last one.
pub proof fn heartbeats_are_due_after_the_interval(
    consolidator: HeartbeatConsolidator,
    to: u64,
    now_ms: u64,
)
    ensures
        !consolidator.sent().contains_key(to) ==> consolidator.due(to, now_ms),
        consolidator.sent().contains_key(to) && consolidator.sent()[to] <= now_ms ==> (
        consolidator.due(to, now_ms) <==> consolidator.sent()[to] + consolidator.interval()
            <= now_ms),
        consolidator.sent().contains_key(to) && now_ms < consolidator.sent()[to] ==> (
        consolidator.due(to, now_ms) <==> consolidator.interval() == 0),
{
}

/// Two nodes are a pair exactly where they share a group.
pub proof fn pairs_share_a_group(consolidator: HeartbeatConsolidator, from: u64, to: u64)
    ensures
        consolidator.pairs().contains((from, to)) <==> exists|g: u64| #[trigger]
            consolidator.shares(from, to, g),
{
    let pair = (from, to);
    if exists|g: u64| #[trigger] consolidator.shares(from, to, g) {
        let g = choose|g: u64| #[trigger] consolidator.shares(from, to, g);
        assert(consolidator.shares(pair.0, pair.1, g));
        assert(consolidator.pairs().contains(pair));
    }
    if consolidator.pairs().contains(pair) {
        let g = choose|g: u64| #[trigger] consolidator.shares(pair.0, pair.1, g);
        assert(consolidator.shares(from, to, g));
    }
}

} // verus!
