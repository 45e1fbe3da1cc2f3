//! Bad region tracking for disks.
//!
//! Maintains a map of quarantined byte ranges on a disk. New extents must
//! not be placed in quarantined regions, and existing extents overlapping
//! bad regions should be reported for repair.

use crate::ids::{DiskId, ExtentId};
use vstd::prelude::*;

verus! {

/// Where a range ends, or the last address where it would end beyond it.
pub open spec fn range_end(offset: u64, length: u64) -> u64 {
    if offset + length <= u64::MAX {
        (offset + length) as u64
    } else {
        u64::MAX
    }
}

/// A contiguous bad region on a disk.
#[derive(Clone, Copy, Debug, PartialEq, Eq, Structural)]
pub struct BadRegion {
    pub offset: u64,
    pub length: u64,
}

impl BadRegion {
    /// Whether a byte lies in the region.
    pub open spec fn holds(self, x: u64) -> bool {
        self.offset <= x < range_end(self.offset, self.length)
    }

    /// Whether the region and a range have a byte in common, each taken to end where
    /// [`range_end`] says.
    pub open spec fn meets(self, offset: u64, length: u64) -> bool {
        self.offset < range_end(offset, length) && offset < range_end(self.offset, self.length)
    }

    /// Where the region ends.
    pub fn end(&self) -> (r: u64)
        ensures
            r == range_end(self.offset, self.length),
    {
        if self.length <= u64::MAX - self.offset {
            self.offset + self.length
        } else {
            u64::MAX
        }
    }

    /// Whether the region overlaps a range.
    pub fn overlaps(&self, offset: u64, length: u64) -> (r: bool)
        ensures
            r == self.meets(offset, length),
    {
        let other = BadRegion { offset, length };
        self.offset < other.end() && offset < self.end()
    }
}

/// Two ranges of at least one byte overlap exactly where some byte lies in both; which
/// of the two is asked makes no difference.
pub proof fn overlap_is_a_common_byte(a: BadRegion, b: BadRegion)
    requires
        a.length > 0,
        b.length > 0,
    ensures
        a.meets(b.offset, b.length) == b.meets(a.offset, a.length),
        a.meets(b.offset, b.length) <==> exists|x: u64| #[trigger] a.holds(x) && b.holds(x),
{
    if a.meets(b.offset, b.length) {
        let x = if a.offset <= b.offset {
            b.offset
        } else {
            a.offset
        };
        assert(a.holds(x) && b.holds(x));
    }
}

/// Per-disk bad region map.
#[derive(Clone, Debug)]
pub struct BadRegionMap {
    pub disk_id: DiskId,
    pub regions: Vec<BadRegion>,
}

/// The extents that overlap one of the regions, in order.
pub open spec fn hit_extents(
    regions: Seq<BadRegion>,
    extents: Seq<(ExtentId, u64, u64)>,
) -> Seq<ExtentId>
    decreases extents.len(),
{
    if extents.len() == 0 {
        Seq::empty()
    } else {
        let front = hit_extents(regions, extents.drop_last());
        let last = extents.last();
        if any_meets(regions, last.1, last.2) {
            front.push(last.0)
        } else {
            front
        }
    }
}

/// Whether one of the regions overlaps a range.
pub open spec fn any_meets(regions: Seq<BadRegion>, offset: u64, length: u64) -> bool {
    exists|i: int| 0 <= i < regions.len() && (#[trigger] regions[i]).meets(offset, length)
}

impl BadRegionMap {
    /// Every region has at least one byte.
    pub open spec fn wf(&self) -> bool {
        forall|i: int| 0 <= i < self.regions@.len() ==> (#[trigger] self.regions@[i]).length > 0
    }

    /// A map without regions.
    pub fn new(disk_id: DiskId) -> (r: Self)
        ensures
            r.disk_id == disk_id,
            r.regions@ == Seq::<BadRegion>::empty(),
            r.wf(),
    {
        BadRegionMap { disk_id, regions: Vec::new() }
    }

    /// Add a bad region to the map; one without a byte is not added.
    pub fn add_region(&mut self, offset: u64, length: u64)
        ensures
            final(self).disk_id == old(self).disk_id,
            final(self).regions@ == (if length == 0 {
                old(self).regions@
            } else {
                old(self).regions@.push(BadRegion { offset, length })
            }),
            old(self).wf() ==> final(self).wf(),
    {
        if length == 0 {
            return;
        }
        self.regions.push(BadRegion { offset, length });
    }

    /// Check whether a given range overlaps any bad region.
    pub fn overlaps(&self, offset: u64, length: u64) -> (r: bool)
        ensures
            r == any_meets(self.regions@, offset, length),
            r <==> exists|i: int|
                0 <= i < self.regions@.len() && (#[trigger] self.regions@[i]).meets(offset, length),
    {
        let mut i: usize = 0;
        while i < self.regions.len()
            invariant
                i <= self.regions@.len(),
                forall|j: int|
                    0 <= j < i ==> !(#[trigger] self.regions@[j]).meets(offset, length),
            decreases self.regions@.len() - i,
        {
            if self.regions[i].overlaps(offset, length) {
                assert(self.regions@[i as int].meets(offset, length));
                return true;
            }
            i = i + 1;
        }
        false
    }

    /// Return all bad regions.
    pub fn regions(&self) -> (r: &[BadRegion])
        ensures
            r@ == self.regions@,
    {
        self.regions.as_slice()
    }

    /// Return the total number of quarantined regions.
    pub fn count(&self) -> (r: usize)
        ensures
            r == self.regions@.len(),
    {
        self.regions.len()
    }

    /// Find extent IDs that overlap with bad regions.
    /// Caller provides identifier, offset and length of the extents on this disk.
    pub fn affected_extents(&self, extents: &[(ExtentId, u64, u64)]) -> (r: Vec<ExtentId>)
        ensures
            r@ == hit_extents(self.regions@, extents@),
    {
        let mut r: Vec<ExtentId> = Vec::new();
        let mut i: usize = 0;
        while i < extents.len()
            invariant
                i <= extents@.len(),
                r@ == hit_extents(self.regions@, extents@.take(i as int)),
            decreases extents@.len() - i,
        {
            let (id, offset, length) = extents[i];
            if self.overlaps(offset, length) {
                r.push(id);
            }
            i = i + 1;
            assert(extents@.take(i as int).drop_last() =~= extents@.take(i - 1));
        }
        assert(extents@.take(extents@.len() as int) =~= extents@);
        r
    }

    /// Clear all regions.
    pub fn clear(&mut self)
        ensures
            final(self).disk_id == old(self).disk_id,
            final(self).regions@ == Seq::<BadRegion>::empty(),
            final(self).wf(),
    {
        self.regions = Vec::new();
    }
}

/// A quarantine holds: once a region of at least one byte is added, every range that
/// overlaps it is found, whatever is added afterwards.
pub proof fn quarantine_only_grows(
    regions: Seq<BadRegion>,
    added: BadRegion,
    offset: u64,
    length: u64,
)
    ensures
        any_meets(regions.push(added), offset, length) <==> any_meets(regions, offset, length)
            || added.meets(offset, length),
{
    let after = regions.push(added);
    if any_meets(regions, offset, length) {
        let i = choose|i: int|
            0 <= i < regions.len() && (#[trigger] regions[i]).meets(offset, length);
        assert(after[i].meets(offset, length));
    }
    assert(after[regions.len() as int] == added);
    if any_meets(after, offset, length) {
        let i = choose|i: int| 0 <= i < after.len() && (#[trigger] after[i]).meets(offset, length);
        if i < regions.len() {
            assert(regions[i].meets(offset, length));
        }
    }
}

/// A region and a range of at least one byte overlap exactly where some byte lies in both;
/// the last address counts as beyond the end of either.
pub proof fn overlap_is_a_byte_of_both(region: BadRegion, offset: u64, length: u64)
    requires
        region.length > 0,
        length > 0,
    ensures
        region.meets(offset, length) <==> exists|x: int|
            #![trigger is_byte(x)]
            is_byte(x) && region.offset <= x < region.offset + region.length && offset <= x < offset
                + length,
{
    let x = if region.offset <= offset {
        offset as int
    } else {
        region.offset as int
    };
    if region.meets(offset, length) {
        assert(is_byte(x));
    }
}

/// Whether a number is an address before the last one.
pub open spec fn is_byte(x: int) -> bool {
    0 <= x < 0xffff_ffff_ffff_ffff
}

/// The extents that are reported for repair are exactly those that overlap a bad region, in
/// the order in which they were given.
pub proof fn every_hit_extent_is_reported(
    regions: Seq<BadRegion>,
    extents: Seq<(ExtentId, u64, u64)>,
)
    ensures
        hit_extents(regions, extents) == extents.filter(
            |e: (ExtentId, u64, u64)|
                exists|i: int| 0 <= i < regions.len() && (#[trigger] regions[i]).meets(e.1, e.2),
        ).map_values(|e: (ExtentId, u64, u64)| e.0),
    decreases extents.len(),
{
    reveal(Seq::filter);
    let hit = |e: (ExtentId, u64, u64)|
        exists|i: int| 0 <= i < regions.len() && (#[trigger] regions[i]).meets(e.1, e.2);
    let id = |e: (ExtentId, u64, u64)| e.0;
    if extents.len() > 0 {
        every_hit_extent_is_reported(regions, extents.drop_last());
        let before = extents.drop_last().filter(hit);
        let last = extents.last();
        assert(any_meets(regions, last.1, last.2) == hit(last));
        if hit(last) {
            assert(before.push(last).map_values(id) =~= before.map_values(id).push(last.0));
        }
    }
    assert(hit_extents(regions, extents) =~= extents.filter(hit).map_values(id));
}

} // verus!
