//! Ranking of groups of places by their free space.

use crate::storage::grouping::{
    falling, group_views, groups_wf, ids_distinct, in_groups, Group, GroupModel, Slot,
};
use vstd::prelude::*;

verus! {

/// What groups are ranked by.
#[derive(Clone, Copy, Debug, PartialEq, Eq, Structural)]
pub enum Measure {
    /// The free space of all places of a group together.
    Total,
    /// The free space of the freest place of a group.
    Freest,
}

/// The free space of a list of places.
pub open spec fn total_free(slots: Seq<Slot>) -> nat
    decreases slots.len(),
{
    if slots.len() == 0 {
        0
    } else {
        total_free(slots.drop_last()) + slots.last().free as nat
    }
}

impl Measure {
    /// The free space that a group is ranked by; its places are ordered by falling free
    /// space.
    pub open spec fn of(self, slots: Seq<Slot>) -> nat {
        match self {
            Measure::Total => total_free(slots),
            Measure::Freest => if slots.len() == 0 {
                0
            } else {
                slots[0].free as nat
            },
        }
    }

    fn weigh(self, slots: &Vec<Slot>) -> (r: u128)
        ensures
            r == self.of(slots@),
    {
        match self {
            Measure::Total => sum_free(slots),
            Measure::Freest => if slots.len() == 0 {
                0
            } else {
                slots[0].free as u128
            },
        }
    }
}

/// Where a group with the given free space goes in a list of groups that is ordered by
/// falling free space: behind all that have at least as much.
pub open spec fn rank(groups: Seq<GroupModel>, measure: Measure, free: nat) -> int
    decreases groups.len(),
{
    if groups.len() == 0 || measure.of(groups.last().slots) >= free {
        groups.len() as int
    } else {
        rank(groups.drop_last(), measure, free)
    }
}

/// Groups in the order of falling free space, and among equals in the given order.
pub open spec fn ranked(groups: Seq<GroupModel>, measure: Measure) -> Seq<GroupModel>
    decreases groups.len(),
{
    if groups.len() == 0 {
        Seq::empty()
    } else {
        let front = ranked(groups.drop_last(), measure);
        front.insert(rank(front, measure, measure.of(groups.last().slots)), groups.last())
    }
}

/// Whether groups are ordered by falling free space.
pub open spec fn falling_groups(groups: Seq<GroupModel>, measure: Measure) -> bool {
    forall|i: int, j: int|
        0 <= i < j < groups.len() ==> measure.of((#[trigger] groups[i]).slots) >= measure.of(
            (#[trigger] groups[j]).slots,
        )
}

proof fn lemma_rank(groups: Seq<GroupModel>, measure: Measure, free: nat)
    requires
        falling_groups(groups, measure),
    ensures
        0 <= rank(groups, measure, free) <= groups.len(),
        forall|i: int|
            0 <= i < rank(groups, measure, free) ==> measure.of((#[trigger] groups[i]).slots) >= free,
        forall|i: int|
            rank(groups, measure, free) <= i < groups.len() ==> measure.of((#[trigger] groups[i]).slots)
                < free,
    decreases groups.len(),
{
    if groups.len() > 0 {
        let front = groups.drop_last();
        if measure.of(groups.last().slots) >= free {
            assert forall|i: int| 0 <= i < groups.len() implies measure.of(
                (#[trigger] groups[i]).slots,
            ) >= free by {
                if i < groups.len() - 1 {
                    assert(measure.of(groups[i].slots) >= measure.of(
                        groups[groups.len() - 1].slots,
                    ));
                }
            }
        } else {
            assert forall|i: int, j: int| 0 <= i < j < front.len() implies measure.of(
                (#[trigger] front[i]).slots,
            ) >= measure.of((#[trigger] front[j]).slots) by {
                assert(front[i] == groups[i] && front[j] == groups[j]);
            }
            lemma_rank(front, measure, free);
            assert forall|i: int| 0 <= i < rank(groups, measure, free) implies measure.of(
                (#[trigger] groups[i]).slots,
            ) >= free by {
                assert(front[i] == groups[i]);
            }
            assert forall|i: int| rank(groups, measure, free) <= i < groups.len() implies measure.of(
                (#[trigger] groups[i]).slots,
            ) < free by {
                if i < front.len() {
                    assert(front[i] == groups[i]);
                }
            }
        }
    }
}

proof fn lemma_insert_keeps_falling(groups: Seq<GroupModel>, group: GroupModel, measure: Measure)
    requires
        falling_groups(groups, measure),
    ensures
        falling_groups(
            groups.insert(rank(groups, measure, measure.of(group.slots)), group),
            measure,
        ),
{
    let p = rank(groups, measure, measure.of(group.slots));
    let after = groups.insert(p, group);
    lemma_rank(groups, measure, measure.of(group.slots));
    assert forall|i: int, j: int| 0 <= i < j < after.len() implies measure.of(
        (#[trigger] after[i]).slots,
    ) >= measure.of((#[trigger] after[j]).slots) by {
        if i != p {
            assert(after[i] == groups[if i < p { i } else { i - 1 }]);
        }
        if j != p {
            assert(after[j] == groups[if j < p { j } else { j - 1 }]);
        }
    }
}

/// Ranking keeps the groups: the same ones, with different keys, the freest first.
pub proof fn ranking_keeps_the_groups(groups: Seq<GroupModel>, measure: Measure)
    requires
        groups_wf(groups),
    ensures
        ranked(groups, measure).len() == groups.len(),
        groups_wf(ranked(groups, measure)),
        falling_groups(ranked(groups, measure), measure),
        forall|g: GroupModel| #[trigger]
            ranked(groups, measure).contains(g) <==> groups.contains(g),
    decreases groups.len(),
{
    if groups.len() > 0 {
        let front = groups.drop_last();
        assert(groups_wf(front)) by {
            assert forall|i: int, j: int| 0 <= i < j < front.len() implies (
            #[trigger] front[i]).key != (#[trigger] front[j]).key by {
                assert(front[i] == groups[i] && front[j] == groups[j]);
            }
            assert forall|i: int, j: int|
                0 <= i < front.len() && 0 <= j < front[i].slots.len() implies (
            #[trigger] front[i].slots[j]).key == front[i].key by {
                assert(groups[i].slots[j].key == groups[i].key);
            }
        }
        ranking_keeps_the_groups(front, measure);
        let before = ranked(front, measure);
        let last = groups.last();
        lemma_rank(before, measure, measure.of(last.slots));
        let p = rank(before, measure, measure.of(last.slots));
        let after = ranked(groups, measure);
        assert(after == before.insert(p, last));
        assert forall|g: GroupModel| #[trigger] after.contains(g) <==> groups.contains(g) by {
            if after.contains(g) {
                let i = choose|i: int| 0 <= i < after.len() && after[i] == g;
                if i == p {
                    assert(groups[groups.len() - 1] == g);
                } else {
                    let i2 = if i < p { i } else { i - 1 };
                    assert(before[i2] == g);
                    assert(before.contains(g));
                    let x = choose|x: int| 0 <= x < front.len() && front[x] == g;
                    assert(groups[x] == g);
                }
            }
            if groups.contains(g) {
                let x = choose|x: int| 0 <= x < groups.len() && groups[x] == g;
                if x < front.len() {
                    assert(front[x] == g);
                    assert(front.contains(g));
                    assert(before.contains(g));
                    let i = choose|i: int| 0 <= i < before.len() && before[i] == g;
                    let i2 = if i < p { i } else { i + 1 };
                    assert(after[i2] == g);
                } else {
                    assert(after[p] == g);
                }
            }
        }
        assert forall|i: int| 0 <= i < before.len() implies (#[trigger] before[i]).key
            != last.key by {
            assert(before.contains(before[i]));
            assert(front.contains(before[i]));
            let x = choose|x: int| 0 <= x < front.len() && front[x] == before[i];
            assert(groups[x] == before[i]);
            assert(groups[x].key != groups[groups.len() - 1].key);
        }
        lemma_insert_keeps_falling(before, last, measure);
        assert forall|i: int, j: int| 0 <= i < j < after.len() implies (#[trigger] after[i]).key
            != (#[trigger] after[j]).key by {
            let i2 = if i < p { i } else { i - 1 };
            let j2 = if j < p { j } else { j - 1 };
            if i != p {
                assert(after[i] == before[i2]);
            }
            if j != p {
                assert(after[j] == before[j2]);
            }
        }
        assert forall|i: int| 0 <= i < after.len() implies (#[trigger] after[i]).slots.len() > 0
            && falling(after[i].slots) by {
            let i2 = if i < p { i } else { i - 1 };
            if i != p {
                assert(after[i] == before[i2]);
            } else {
                assert(groups[groups.len() - 1] == last);
            }
        }
        assert forall|i: int, j: int| 0 <= i < after.len() && 0 <= j < after[i].slots.len() implies (
        #[trigger] after[i].slots[j]).key == after[i].key by {
            let i2 = if i < p { i } else { i - 1 };
            if i != p {
                assert(before[i2].slots[j].key == before[i2].key);
            } else {
                assert(groups[groups.len() - 1].slots[j].key == groups[groups.len() - 1].key);
            }
        }
    }
}

/// The places in the ranked groups are those in the groups.
pub proof fn ranking_keeps_the_places(groups: Seq<GroupModel>, measure: Measure)
    requires
        groups_wf(groups),
    ensures
        forall|s: Slot| #[trigger]
            in_groups(ranked(groups, measure), s) <==> in_groups(groups, s),
        ids_distinct(groups) ==> ids_distinct(ranked(groups, measure)),
{
    let after = ranked(groups, measure);
    ranking_keeps_the_groups(groups, measure);
    assert forall|i: int| 0 <= i < after.len() implies groups.contains(#[trigger] after[i]) by {
        assert(after.contains(after[i]));
    }
    assert forall|s: Slot| #[trigger] in_groups(after, s) <==> in_groups(groups, s) by {
        if in_groups(after, s) {
            let i = choose|i: int| 0 <= i < after.len() && (#[trigger] after[i]).slots.contains(s);
            let x = choose|x: int| 0 <= x < groups.len() && groups[x] == after[i];
            assert(groups[x].slots.contains(s));
        }
        if in_groups(groups, s) {
            let x = choose|x: int|
                0 <= x < groups.len() && (#[trigger] groups[x]).slots.contains(s);
            assert(groups.contains(groups[x]));
            assert(after.contains(groups[x]));
            let i = choose|i: int| 0 <= i < after.len() && after[i] == groups[x];
            assert(after[i].slots.contains(s));
        }
    }
    if ids_distinct(groups) {
        assert forall|g: int, k: int, h: int, l: int|
            #![trigger after[g].slots[k], after[h].slots[l]]
            0 <= g < after.len() && 0 <= k < after[g].slots.len() && 0 <= h < after.len() && 0 <= l
                < after[h].slots.len() && after[g].slots[k].id == after[h].slots[l].id implies g
            == h && k == l by {
            assert(groups.contains(after[g]) && groups.contains(after[h]));
            let x = choose|x: int| 0 <= x < groups.len() && groups[x] == after[g];
            let y = choose|y: int| 0 <= y < groups.len() && groups[y] == after[h];
            assert(groups[x].slots[k].id == groups[y].slots[l].id);
            if g < h {
                assert(after[g].key != after[h].key);
            } else if h < g {
                assert(after[h].key != after[g].key);
            }
        }
    }
}

/// The free space of a list of places; a 128-bit number has room for it.
fn sum_free(slots: &Vec<Slot>) -> (r: u128)
    ensures
        r == total_free(slots@),
{
    let mut total: u128 = 0;
    let mut i: usize = 0;
    while i < slots.len()
        invariant
            i <= slots@.len(),
            total == total_free(slots@.take(i as int)),
            total <= i * 0xffff_ffff_ffff_ffff,
        decreases slots@.len() - i,
    {
        assert(i * 0xffff_ffff_ffff_ffff <= 0xffff_ffff_ffff_ffff * 0xffff_ffff_ffff_ffff)
            by (nonlinear_arith)
            requires
                i <= 0xffff_ffff_ffff_ffff,
        ;
        total = total + slots[i].free as u128;
        i = i + 1;
        assert(slots@.take(i as int).drop_last() =~= slots@.take(i - 1));
    }
    assert(slots@.take(slots@.len() as int) =~= slots@);
    total
}

/// Groups in the order of falling free space.
pub fn rank_groups(groups: Vec<Group>, measure: Measure) -> (r: Vec<Group>)
    ensures
        group_views(r@) == ranked(group_views(groups@), measure),
{
    let ghost all = groups@;
    let ghost views = group_views(all);
    let mut r: Vec<Group> = Vec::new();
    let mut weights: Vec<u128> = Vec::new();
    assert(group_views(r@) =~= ranked(views.take(0), measure));
    for group in it: groups
        invariant
            it.seq() == all,
            views == group_views(all),
            group_views(r@) == ranked(views.take(it.index() as int), measure),
            weights@.len() == r@.len(),
            forall|i: int| 0 <= i < r@.len() ==> weights@[i] == measure.of((#[trigger] r@[i]).slots@),
    {
        let ghost before = group_views(r@);
        let ghost had = r@;
        let ghost had_weights = weights@;
        let ghost n = it.index() as int;
        assert(all[n] == group);
        assert(views[n] == group@);
        let total = measure.weigh(&group.slots);
        let mut p: usize = r.len();
        assert(before.take(r@.len() as int) =~= before);
        while p > 0 && weights[p - 1] < total
            invariant
                p <= r@.len(),
                r@ == had,
                before == group_views(had),
                weights@ == had_weights,
                weights@.len() == r@.len(),
                total == measure.of(group.slots@),
                forall|i: int|
                    0 <= i < r@.len() ==> weights@[i] == measure.of((#[trigger] r@[i]).slots@),
                rank(before, measure, total as nat) == rank(
                    before.take(p as int),
                    measure,
                    total as nat,
                ),
            decreases p,
        {
            assert(before.take(p as int).last() == r@[p - 1]@);
            assert(before.take(p as int).drop_last() =~= before.take(p - 1));
            p = p - 1;
        }
        proof {
            if p > 0 {
                assert(before.take(p as int).last() == r@[p - 1]@);
            }
            assert(rank(before, measure, total as nat) == p);
        }
        r.insert(p, group);
        weights.insert(p, total);
        proof {
            assert(group_views(r@) =~= before.insert(p as int, group@));
            assert(views.take(n + 1).drop_last() =~= views.take(n));
            assert(views.take(n + 1).last() == group@);
            assert forall|i: int| 0 <= i < r@.len() implies weights@[i] == measure.of(
                (#[trigger] r@[i]).slots@,
            ) by {
                if i < p {
                    assert(r@[i] == had[i]);
                } else if i > p {
                    assert(r@[i] == had[i - 1]);
                }
            }
        }
    }
    assert(views.take(views.len() as int) =~= views);
    r
}

} // verus!
