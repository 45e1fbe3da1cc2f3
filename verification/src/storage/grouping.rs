//! Grouping of places by a key, each group with the freest place first.

use vstd::prelude::*;

verus! {

/// A place that can be chosen: the key of its group, its free space, and its identifier.
#[derive(Clone, Copy, Debug, PartialEq, Eq, Structural)]
pub struct Slot {
    pub key: u128,
    pub free: u64,
    pub id: u128,
}

/// The places with one key.
#[derive(Clone, Debug)]
pub struct Group {
    pub key: u128,
    pub slots: Vec<Slot>,
}

/// The places with one key, as a mathematical value.
pub struct GroupModel {
    pub key: u128,
    pub slots: Seq<Slot>,
}

impl View for Group {
    type V = GroupModel;

    open spec fn view(&self) -> GroupModel {
        GroupModel { key: self.key, slots: self.slots@ }
    }
}

/// The views of groups.
pub open spec fn group_views(groups: Seq<Group>) -> Seq<GroupModel> {
    groups.map_values(|g: Group| g@)
}

/// Where a place with the given free space goes in a list of places that is ordered by
/// falling free space: behind all that have at least as much.
pub open spec fn slot_position(slots: Seq<Slot>, free: u64) -> int
    decreases slots.len(),
{
    if slots.len() == 0 || slots.last().free >= free {
        slots.len() as int
    } else {
        slot_position(slots.drop_last(), free)
    }
}

/// A list of places with one more put where it goes.
pub open spec fn with_slot(slots: Seq<Slot>, slot: Slot) -> Seq<Slot> {
    slots.insert(slot_position(slots, slot.free), slot)
}

/// The position of the group with a key, or the number of groups.
pub open spec fn group_position(groups: Seq<GroupModel>, key: u128) -> int
    decreases groups.len(),
{
    if groups.len() == 0 {
        0
    } else if groups[0].key == key {
        0
    } else {
        1 + group_position(groups.skip(1), key)
    }
}

/// Groups with one more place: in the group with its key, or in a new group at the end.
pub open spec fn with_grouped_slot(groups: Seq<GroupModel>, slot: Slot) -> Seq<GroupModel> {
    let i = group_position(groups, slot.key);
    if i < groups.len() {
        groups.update(
            i,
            GroupModel { key: slot.key, slots: with_slot(groups[i].slots, slot) },
        )
    } else {
        groups.push(GroupModel { key: slot.key, slots: seq![slot] })
    }
}

/// Places grouped by their keys, in the order in which the keys first occur; within a
/// group by falling free space, and among equals in the given order.
pub open spec fn grouped(slots: Seq<Slot>) -> Seq<GroupModel>
    decreases slots.len(),
{
    if slots.len() == 0 {
        Seq::empty()
    } else {
        with_grouped_slot(grouped(slots.drop_last()), slots.last())
    }
}

/// Whether a list of places is ordered by falling free space.
pub open spec fn falling(slots: Seq<Slot>) -> bool {
    forall|i: int, j: int| 0 <= i < j < slots.len() ==> #[trigger] slots[i].free >= #[trigger] slots[j].free
}

/// What holds of groups: different keys, at least one place in each, every place with
/// the key of its group, and the freest first.
pub open spec fn groups_wf(groups: Seq<GroupModel>) -> bool {
    &&& forall|i: int, j: int|
        0 <= i < j < groups.len() ==> (#[trigger] groups[i]).key != (#[trigger] groups[j]).key
    &&& forall|i: int|
        0 <= i < groups.len() ==> (#[trigger] groups[i]).slots.len() > 0 && falling(
            groups[i].slots,
        )
    &&& forall|i: int, j: int|
        0 <= i < groups.len() && 0 <= j < groups[i].slots.len() ==> (
        #[trigger] groups[i].slots[j]).key == groups[i].key
}

/// Whether a place stands in one of the groups.
pub open spec fn in_groups(groups: Seq<GroupModel>, slot: Slot) -> bool {
    exists|i: int| 0 <= i < groups.len() && (#[trigger] groups[i]).slots.contains(slot)
}

pub proof fn lemma_slot_position(slots: Seq<Slot>, free: u64)
    requires
        falling(slots),
    ensures
        0 <= slot_position(slots, free) <= slots.len(),
        forall|i: int| 0 <= i < slot_position(slots, free) ==> (#[trigger] slots[i]).free >= free,
        forall|i: int|
            slot_position(slots, free) <= i < slots.len() ==> (#[trigger] slots[i]).free < free,
    decreases slots.len(),
{
    if slots.len() == 0 {
    } else if slots.last().free >= free {
        assert forall|i: int| 0 <= i < slots.len() implies (#[trigger] slots[i]).free >= free by {
            if i < slots.len() - 1 {
                assert(slots[i].free >= slots[slots.len() - 1].free);
            }
        }
    } else {
        let front = slots.drop_last();
        assert(falling(front)) by {
            assert forall|i: int, j: int| 0 <= i < j < front.len() implies #[trigger] front[i].free
                >= #[trigger] front[j].free by {
                assert(slots[i].free >= slots[j].free);
            }
        }
        lemma_slot_position(front, free);
        assert forall|i: int| 0 <= i < slot_position(slots, free) implies (#[trigger] slots[i]).free
            >= free by {
            assert(front[i] == slots[i]);
        }
        assert forall|i: int| slot_position(slots, free) <= i < slots.len() implies (
        #[trigger] slots[i]).free < free by {
            if i < front.len() {
                assert(front[i] == slots[i]);
            }
        }
    }
}

pub proof fn lemma_with_slot(slots: Seq<Slot>, slot: Slot)
    requires
        falling(slots),
    ensures
        falling(with_slot(slots, slot)),
        with_slot(slots, slot).len() == slots.len() + 1,
        forall|s: Slot| #[trigger]
            with_slot(slots, slot).contains(s) <==> slots.contains(s) || s == slot,
{
    lemma_slot_position(slots, slot.free);
    let p = slot_position(slots, slot.free);
    let after = with_slot(slots, slot);
    assert forall|i: int, j: int| 0 <= i < j < after.len() implies #[trigger] after[i].free
        >= #[trigger] after[j].free by {
        let i2 = if i < p { i } else { i - 1 };
        let j2 = if j < p { j } else { j - 1 };
        if i != p {
            assert(after[i] == slots[i2]);
        }
        if j != p {
            assert(after[j] == slots[j2]);
        }
        if i != p && j != p {
            assert(slots[i2].free >= slots[j2].free);
        }
    }
    assert forall|s: Slot| #[trigger] after.contains(s) <==> slots.contains(s) || s == slot by {
        if after.contains(s) {
            let i = choose|i: int| 0 <= i < after.len() && after[i] == s;
            if i != p {
                let i2 = if i < p { i } else { i - 1 };
                assert(slots[i2] == s);
            }
        }
        if slots.contains(s) {
            let i = choose|i: int| 0 <= i < slots.len() && slots[i] == s;
            let i2 = if i < p { i } else { i + 1 };
            assert(after[i2] == s);
        }
        assert(after[p] == slot);
    }
}

pub proof fn lemma_group_position(groups: Seq<GroupModel>, key: u128)
    ensures
        0 <= group_position(groups, key) <= groups.len(),
        group_position(groups, key) < groups.len() ==> groups[group_position(groups, key)].key
            == key,
        forall|i: int| 0 <= i < group_position(groups, key) ==> (#[trigger] groups[i]).key != key,
    decreases groups.len(),
{
    if groups.len() > 0 && groups[0].key != key {
        lemma_group_position(groups.skip(1), key);
        assert forall|i: int| 0 <= i < group_position(groups, key) implies (
        #[trigger] groups[i]).key != key by {
            if i > 0 {
                assert(groups.skip(1)[i - 1] == groups[i]);
            }
        }
    }
}

proof fn lemma_with_grouped_slot(groups: Seq<GroupModel>, slot: Slot)
    requires
        groups_wf(groups),
    ensures
        groups_wf(with_grouped_slot(groups, slot)),
        forall|s: Slot| #[trigger]
            in_groups(with_grouped_slot(groups, slot), s) <==> in_groups(groups, s) || s == slot,
{
    let p = group_position(groups, slot.key);
    let after = with_grouped_slot(groups, slot);
    lemma_group_position(groups, slot.key);
    if p < groups.len() {
        lemma_with_slot(groups[p].slots, slot);
        assert forall|i: int, j: int| 0 <= i < after.len() && 0 <= j < after[i].slots.len() implies (
        #[trigger] after[i].slots[j]).key == after[i].key by {
            if i == p {
                let s = after[i].slots[j];
                assert(after[i].slots.contains(s));
                if s != slot {
                    assert(groups[p].slots.contains(s));
                    let x = choose|x: int|
                        0 <= x < groups[p].slots.len() && groups[p].slots[x] == s;
                    assert(groups[p].slots[x].key == groups[p].key);
                }
            }
        }
        assert forall|s: Slot| #[trigger] in_groups(after, s) <==> in_groups(groups, s) || s
            == slot by {
            if in_groups(after, s) {
                let i = choose|i: int| 0 <= i < after.len() && (#[trigger] after[i]).slots.contains(s);
                if i == p {
                    assert(groups[p].slots.contains(s) || s == slot);
                } else {
                    assert(groups[i].slots.contains(s));
                }
            }
            if in_groups(groups, s) {
                let i = choose|i: int|
                    0 <= i < groups.len() && (#[trigger] groups[i]).slots.contains(s);
                assert(after[i].slots.contains(s));
            }
            assert(after[p].slots.contains(slot));
        }
    } else {
        let n = groups.len() as int;
        assert(after[n].slots[0] == slot);
        assert forall|s: Slot| #[trigger] in_groups(after, s) <==> in_groups(groups, s) || s
            == slot by {
            if in_groups(after, s) {
                let i = choose|i: int| 0 <= i < after.len() && (#[trigger] after[i]).slots.contains(s);
                if i < n {
                    assert(groups[i].slots.contains(s));
                }
            }
            if in_groups(groups, s) {
                let i = choose|i: int|
                    0 <= i < groups.len() && (#[trigger] groups[i]).slots.contains(s);
                assert(after[i].slots.contains(s));
            }
            assert(after[n].slots.contains(slot));
        }
    }
}

/// Grouping loses nothing and invents nothing: the groups are well formed, and a place
/// stands in one of them exactly where it was among the given ones.
pub proof fn grouping_keeps_the_places(slots: Seq<Slot>)
    ensures
        groups_wf(grouped(slots)),
        forall|s: Slot| #[trigger] in_groups(grouped(slots), s) <==> slots.contains(s),
    decreases slots.len(),
{
    if slots.len() > 0 {
        let front = slots.drop_last();
        grouping_keeps_the_places(front);
        lemma_with_grouped_slot(grouped(front), slots.last());
        assert forall|s: Slot| #[trigger] in_groups(grouped(slots), s) <==> slots.contains(s) by {
            if front.contains(s) {
                let i = choose|i: int| 0 <= i < front.len() && front[i] == s;
                assert(slots[i] == s);
            }
            if slots.contains(s) && s != slots.last() {
                let i = choose|i: int| 0 <= i < slots.len() && slots[i] == s;
                assert(front[i] == s);
            }
            assert(slots[slots.len() - 1] == slots.last());
        }
    }
}

/// Whether no two places in the groups have one identifier.
pub open spec fn ids_distinct(groups: Seq<GroupModel>) -> bool {
    forall|g: int, k: int, h: int, l: int|
        #![trigger groups[g].slots[k], groups[h].slots[l]]
        0 <= g < groups.len() && 0 <= k < groups[g].slots.len() && 0 <= h < groups.len() && 0 <= l
            < groups[h].slots.len() && groups[g].slots[k].id == groups[h].slots[l].id ==> g == h
            && k == l
}

/// Whether no two places of a list have one identifier.
pub open spec fn slot_ids_distinct(slots: Seq<Slot>) -> bool {
    forall|i: int, j: int|
        0 <= i < j < slots.len() ==> (#[trigger] slots[i]).id != (#[trigger] slots[j]).id
}

/// Places with different identifiers stand in the groups once each.
pub proof fn grouping_keeps_ids_distinct(slots: Seq<Slot>)
    requires
        slot_ids_distinct(slots),
    ensures
        ids_distinct(grouped(slots)),
    decreases slots.len(),
{
    if slots.len() > 0 {
        let front = slots.drop_last();
        let slot = slots.last();
        assert(slot_ids_distinct(front)) by {
            assert forall|i: int, j: int| 0 <= i < j < front.len() implies (
            #[trigger] front[i]).id != (#[trigger] front[j]).id by {
                assert(front[i] == slots[i] && front[j] == slots[j]);
            }
        }
        grouping_keeps_ids_distinct(front);
        grouping_keeps_the_places(front);
        let groups = grouped(front);
        let after = grouped(slots);
        let p = group_position(groups, slot.key);
        lemma_group_position(groups, slot.key);
        assert forall|g: int, k: int|
            0 <= g < groups.len() && 0 <= k < groups[g].slots.len() implies (
        #[trigger] groups[g].slots[k]).id != slot.id by {
            let s = groups[g].slots[k];
            assert(groups[g].slots.contains(s));
            assert(in_groups(groups, s));
            let i = choose|i: int| 0 <= i < front.len() && front[i] == s;
            assert(slots[i].id != slots[slots.len() - 1].id);
        }
        if p < groups.len() {
            lemma_slot_position(groups[p].slots, slot.free);
            let q = slot_position(groups[p].slots, slot.free);
            assert forall|g: int, k: int, h: int, l: int|
                #![trigger after[g].slots[k], after[h].slots[l]]
                0 <= g < after.len() && 0 <= k < after[g].slots.len() && 0 <= h < after.len() && 0
                    <= l < after[h].slots.len() && after[g].slots[k].id
                    == after[h].slots[l].id implies g == h && k == l by {
                let k2 = if g == p && k > q { k - 1 } else { k };
                let l2 = if h == p && l > q { l - 1 } else { l };
                if !(g == p && k == q) {
                    assert(after[g].slots[k] == groups[g].slots[k2]);
                }
                if !(h == p && l == q) {
                    assert(after[h].slots[l] == groups[h].slots[l2]);
                }
            }
        } else {
            assert forall|g: int, k: int, h: int, l: int|
                #![trigger after[g].slots[k], after[h].slots[l]]
                0 <= g < after.len() && 0 <= k < after[g].slots.len() && 0 <= h < after.len() && 0
                    <= l < after[h].slots.len() && after[g].slots[k].id
                    == after[h].slots[l].id implies g == h && k == l by {
                if g < groups.len() {
                    assert(after[g].slots[k] == groups[g].slots[k]);
                }
                if h < groups.len() {
                    assert(after[h].slots[l] == groups[h].slots[l]);
                }
            }
        }
    }
}

fn find_slot_position(slots: &Vec<Slot>, free: u64) -> (r: usize)
    ensures
        r == slot_position(slots@, free),
        r <= slots@.len(),
{
    let mut i: usize = slots.len();
    assert(slots@.take(slots@.len() as int) =~= slots@);
    while i > 0
        invariant
            i <= slots@.len(),
            slot_position(slots@, free) == slot_position(slots@.take(i as int), free),
        decreases i,
    {
        assert(slots@.take(i as int).drop_last() =~= slots@.take(i - 1));
        if slots[i - 1].free >= free {
            return i;
        }
        i = i - 1;
    }
    0
}

fn find_group(groups: &Vec<Group>, key: u128) -> (r: usize)
    ensures
        r == group_position(group_views(groups@), key),
        r <= groups@.len(),
{
    let mut i: usize = 0;
    assert(group_views(groups@).skip(0) =~= group_views(groups@));
    while i < groups.len()
        invariant
            i <= groups@.len(),
            group_position(group_views(groups@), key) == i + group_position(
                group_views(groups@).skip(i as int),
                key,
            ),
        decreases groups@.len() - i,
    {
        let ghost rest = group_views(groups@).skip(i as int);
        assert(rest[0] == groups@[i as int]@);
        if groups[i].key == key {
            return i;
        }
        assert(rest.skip(1) =~= group_views(groups@).skip(i + 1));
        i = i + 1;
    }
    i
}

/// Groups places by their keys.
pub fn group_slots(slots: &Vec<Slot>) -> (r: Vec<Group>)
    ensures
        group_views(r@) == grouped(slots@),
        groups_wf(grouped(slots@)),
{
    let mut groups: Vec<Group> = Vec::new();
    assert(group_views(groups@) =~= grouped(slots@.take(0)));
    let mut i: usize = 0;
    while i < slots.len()
        invariant
            i <= slots@.len(),
            group_views(groups@) == grouped(slots@.take(i as int)),
        decreases slots@.len() - i,
    {
        let slot = slots[i];
        let ghost before = group_views(groups@);
        let g = find_group(&groups, slot.key);
        if g < groups.len() {
            let p = find_slot_position(&groups[g].slots, slot.free);
            groups[g].slots.insert(p, slot);
            proof {
                lemma_group_position(before, slot.key);
                assert(before[g as int].key == slot.key);
                assert(group_views(groups@) =~= with_grouped_slot(before, slot));
            }
        } else {
            let mut first: Vec<Slot> = Vec::new();
            first.push(slot);
            assert(first@ =~= seq![slot]);
            groups.push(Group { key: slot.key, slots: first });
            assert(group_views(groups@) =~= with_grouped_slot(before, slot));
        }
        i = i + 1;
        assert(slots@.take(i as int).drop_last() =~= slots@.take(i - 1));
    }
    assert(slots@.take(slots@.len() as int) =~= slots@);
    proof {
        grouping_keeps_the_places(slots@);
    }
    groups
}

} // verus!
