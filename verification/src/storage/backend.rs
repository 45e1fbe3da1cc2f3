//! Storage pools: a pool in memory.

use crate::ids::VolumeId;
use crate::text::{join2, join3};
use crate::types::{Error, ZfsHealthState};
use vstd::prelude::*;

verus! {

/// A block volume of a pool.
#[derive(Clone, Debug)]
pub struct ZvolInfo {
    pub name: String,
    pub volume_id: VolumeId,
    pub size_bytes: u64,
    pub used_bytes: u64,
}

/// The health of a pool.
#[derive(Clone, Debug)]
pub struct ZfsPoolHealth {
    pub pool_name: String,
    pub state: ZfsHealthState,
    pub capacity_bytes: u64,
    pub used_bytes: u64,
    pub free_bytes: u64,
}

/// What a pool keeps of a block volume.
#[derive(Clone, Debug)]
pub struct ZvolEntry {
    pub volume_id: VolumeId,
    pub size_bytes: u64,
    pub snapshots: Vec<String>,
}

/// The position of a volume from `from` on, or the number of volumes.
pub open spec fn zvol_position(zvols: Seq<ZvolEntry>, id: VolumeId, from: int) -> int
    decreases zvols.len() - from,
{
    if from >= zvols.len() || zvols[from].volume_id == id {
        from
    } else {
        zvol_position(zvols, id, from + 1)
    }
}

/// Whether a volume exists.
pub open spec fn has_zvol(zvols: Seq<ZvolEntry>, id: VolumeId) -> bool {
    exists|i: int| 0 <= i < zvols.len() && (#[trigger] zvols[i]).volume_id == id
}

/// The sum of the sizes.
pub open spec fn total_size(zvols: Seq<ZvolEntry>) -> nat
    decreases zvols.len(),
{
    if zvols.len() == 0 {
        0
    } else {
        total_size(zvols.drop_last()) + zvols.last().size_bytes as nat
    }
}

/// No volume occurs twice.
pub open spec fn zvols_distinct(zvols: Seq<ZvolEntry>) -> bool {
    forall|i: int, j: int|
        0 <= i < j < zvols.len() ==> (#[trigger] zvols[i]).volume_id != (#[trigger] zvols[j]).volume_id
}

/// A pool in memory.
#[derive(Clone, Debug)]
pub struct MemoryBackend {
    pub pool_name: String,
    pub zvols: Vec<ZvolEntry>,
    pub capacity: u64,
}

impl MemoryBackend {
    /// No volume occurs twice.
    pub open spec fn wf(&self) -> bool {
        zvols_distinct(self.zvols@)
    }

    /// An empty pool.
    pub fn new(pool_name: String, capacity: u64) -> (r: Self)
        ensures
            r.pool_name == pool_name,
            r.capacity == capacity,
            r.zvols@ == Seq::<ZvolEntry>::empty(),
            r.wf(),
    {
        MemoryBackend { pool_name, zvols: Vec::new(), capacity }
    }

    fn find(&self, id: VolumeId) -> (r: Option<usize>)
        ensures
            match r {
                Some(i) => i < self.zvols@.len() && self.zvols@[i as int].volume_id == id && i
                    == zvol_position(self.zvols@, id, 0) && has_zvol(self.zvols@, id),
                None => !has_zvol(self.zvols@, id),
            },
    {
        let mut i: usize = 0;
        while i < self.zvols.len()
            invariant
                i <= self.zvols@.len(),
                forall|j: int| 0 <= j < i ==> (#[trigger] self.zvols@[j]).volume_id != id,
                zvol_position(self.zvols@, id, 0) == zvol_position(self.zvols@, id, i as int),
            decreases self.zvols@.len() - i,
        {
            if self.zvols[i].volume_id == id {
                return Some(i);
            }
            i = i + 1;
        }
        None
    }

    /// The sum of the sizes of the volumes.
    fn used_bytes(&self) -> (r: u64)
        requires
            total_size(self.zvols@) <= u64::MAX,
        ensures
            r == total_size(self.zvols@),
    {
        let mut used: u64 = 0;
        let mut i: usize = 0;
        while i < self.zvols.len()
            invariant
                i <= self.zvols@.len(),
                total_size(self.zvols@) <= u64::MAX,
                used == total_size(self.zvols@.take(i as int)),
            decreases self.zvols@.len() - i,
        {
            proof {
                lemma_total_size_prefix(self.zvols@, i + 1);
                assert(self.zvols@.take(i + 1).drop_last() =~= self.zvols@.take(i as int));
            }
            used = used + self.zvols[i].size_bytes;
            i = i + 1;
        }
        assert(self.zvols@.take(self.zvols@.len() as int) =~= self.zvols@);
        used
    }

    /// Creates a volume; refused where it exists or where the pool has no room for it.
    pub fn create_zvol(&mut self, volume_id: &VolumeId, size_bytes: u64) -> (r: Result<(), Error>)
        requires
            old(self).wf(),
            !has_zvol(old(self).zvols@, *volume_id) ==> total_size(old(self).zvols@) + size_bytes
                <= u64::MAX,
        ensures
            final(self).wf(),
            final(self).pool_name == old(self).pool_name,
            final(self).capacity == old(self).capacity,
            if has_zvol(old(self).zvols@, *volume_id) {
                &&& r is Err
                &&& r->Err_0 is Storage
                &&& r->Err_0->Storage_0@ == "zvol already exists: "@ + volume_id.text()
                &&& final(self).zvols@ == old(self).zvols@
            } else if total_size(old(self).zvols@) + size_bytes > old(self).capacity {
                &&& r is Err
                &&& r->Err_0 is Storage
                &&& r->Err_0->Storage_0@ == "pool full"@
                &&& final(self).zvols@ == old(self).zvols@
            } else {
                &&& r is Ok
                &&& final(self).zvols@.len() == old(self).zvols@.len() + 1
                &&& final(self).zvols@.drop_last() == old(self).zvols@
                &&& final(self).zvols@.last().volume_id == *volume_id
                &&& final(self).zvols@.last().size_bytes == size_bytes
                &&& final(self).zvols@.last().snapshots@ == Seq::<String>::empty()
            },
    {
        if self.find(*volume_id).is_some() {
            return Err(
                Error::Storage(join2("zvol already exists: ", volume_id.to_text().as_str())),
            );
        }
        if self.used_bytes() + size_bytes > self.capacity {
            return Err(Error::Storage("pool full".to_owned()));
        }
        self.zvols.push(
            ZvolEntry { volume_id: *volume_id, size_bytes, snapshots: Vec::new() },
        );
        assert(self.zvols@.drop_last() =~= old(self).zvols@);
        Ok(())
    }

    fn not_found(volume_id: &VolumeId) -> (e: Error)
        ensures
            e is VolumeNotFound,
            e->VolumeNotFound_0@ == volume_id.text(),
    {
        Error::VolumeNotFound(volume_id.to_text())
    }

    /// Destroys a volume; refused where it does not exist.
    pub fn destroy_zvol(&mut self, volume_id: &VolumeId) -> (r: Result<(), Error>)
        requires
            old(self).wf(),
        ensures
            final(self).wf(),
            final(self).pool_name == old(self).pool_name,
            final(self).capacity == old(self).capacity,
            if has_zvol(old(self).zvols@, *volume_id) {
                &&& r is Ok
                &&& final(self).zvols@ == old(self).zvols@.remove(
                    zvol_position(old(self).zvols@, *volume_id, 0),
                )
                &&& !has_zvol(final(self).zvols@, *volume_id)
            } else {
                &&& r is Err
                &&& r->Err_0 is VolumeNotFound
                &&& r->Err_0->VolumeNotFound_0@ == volume_id.text()
                &&& final(self).zvols@ == old(self).zvols@
            },
    {
        match self.find(*volume_id) {
            Some(i) => {
                let ghost before = self.zvols@;
                self.zvols.remove(i);
                proof {
                    let after = self.zvols@;
                    assert forall|a: int| 0 <= a < after.len() implies (
                    #[trigger] after[a]).volume_id != *volume_id by {
                        let a2 = if a < i { a } else { a + 1 };
                        assert(after[a] == before[a2]);
                    }
                    assert forall|a: int, b: int| 0 <= a < b < after.len() implies (
                    #[trigger] after[a]).volume_id != (#[trigger] after[b]).volume_id by {
                        let a2 = if a < i { a } else { a + 1 };
                        let b2 = if b < i { b } else { b + 1 };
                        assert(after[a] == before[a2] && after[b] == before[b2]);
                    }
                }
                Ok(())
            },
            None => Err(Self::not_found(volume_id)),
        }
    }

    /// Changes the size of a volume; refused where it does not exist.
    pub fn resize_zvol(&mut self, volume_id: &VolumeId, new_size: u64) -> (r: Result<(), Error>)
        requires
            old(self).wf(),
        ensures
            final(self).wf(),
            final(self).pool_name == old(self).pool_name,
            final(self).capacity == old(self).capacity,
            if has_zvol(old(self).zvols@, *volume_id) {
                let i = zvol_position(old(self).zvols@, *volume_id, 0);
                &&& r is Ok
                &&& final(self).zvols@ == old(self).zvols@.update(
                    i,
                    ZvolEntry { size_bytes: new_size, ..old(self).zvols@[i] },
                )
            } else {
                &&& r is Err
                &&& r->Err_0 is VolumeNotFound
                &&& r->Err_0->VolumeNotFound_0@ == volume_id.text()
                &&& final(self).zvols@ == old(self).zvols@
            },
    {
        match self.find(*volume_id) {
            Some(i) => {
                self.zvols[i].size_bytes = new_size;
                assert(self.zvols@ =~= old(self).zvols@.update(
                    i as int,
                    ZvolEntry { size_bytes: new_size, ..old(self).zvols@[i as int] },
                ));
                Ok(())
            },
            None => Err(Self::not_found(volume_id)),
        }
    }

    /// Takes a snapshot of a volume; refused where it does not exist.
    pub fn snapshot_zvol(&mut self, volume_id: &VolumeId, snap_name: &str) -> (r: Result<
        (),
        Error,
    >)
        requires
            old(self).wf(),
        ensures
            final(self).wf(),
            final(self).pool_name == old(self).pool_name,
            final(self).capacity == old(self).capacity,
            final(self).zvols@.len() == old(self).zvols@.len(),
            if has_zvol(old(self).zvols@, *volume_id) {
                let i = zvol_position(old(self).zvols@, *volume_id, 0);
                let before = old(self).zvols@[i];
                let after = final(self).zvols@[i];
                &&& r is Ok
                &&& after.volume_id == before.volume_id
                &&& after.size_bytes == before.size_bytes
                &&& after.snapshots@.len() == before.snapshots@.len() + 1
                &&& after.snapshots@.drop_last() == before.snapshots@
                &&& after.snapshots@.last()@ == snap_name@
                &&& forall|j: int|
                    0 <= j < old(self).zvols@.len() && j != i ==> final(self).zvols@[j]
                        == #[trigger] old(self).zvols@[j]
            } else {
                &&& r is Err
                &&& r->Err_0 is VolumeNotFound
                &&& r->Err_0->VolumeNotFound_0@ == volume_id.text()
                &&& final(self).zvols@ == old(self).zvols@
            },
    {
        match self.find(*volume_id) {
            Some(i) => {
                self.zvols[i].snapshots.push(snap_name.to_owned());
                assert(self.zvols@[i as int].snapshots@.drop_last()
                    =~= old(self).zvols@[i as int].snapshots@);
                Ok(())
            },
            None => Err(Self::not_found(volume_id)),
        }
    }

    /// Capacity and used bytes of the pool.
    pub fn pool_capacity(&self) -> (r: Result<(u64, u64), Error>)
        requires
            total_size(self.zvols@) <= u64::MAX,
        ensures
            r == Ok::<(u64, u64), Error>((self.capacity, total_size(self.zvols@) as u64)),
    {
        Ok((self.capacity, self.used_bytes()))
    }

    /// The health of the pool: online, with what is free.
    pub fn pool_health(&self) -> (r: Result<ZfsPoolHealth, Error>)
        requires
            total_size(self.zvols@) <= u64::MAX,
        ensures
            r is Ok,
            r->Ok_0.pool_name@ == self.pool_name@,
            r->Ok_0.state == ZfsHealthState::Online,
            r->Ok_0.capacity_bytes == self.capacity,
            r->Ok_0.used_bytes == total_size(self.zvols@),
            r->Ok_0.free_bytes == (if r->Ok_0.used_bytes <= self.capacity {
                self.capacity - r->Ok_0.used_bytes
            } else {
                0
            }),
    {
        let used = self.used_bytes();
        let free_bytes: u64 = if used <= self.capacity {
            self.capacity - used
        } else {
            0
        };
        Ok(
            ZfsPoolHealth {
                pool_name: self.pool_name.clone(),
                state: ZfsHealthState::Online,
                capacity_bytes: self.capacity,
                used_bytes: used,
                free_bytes,
            },
        )
    }

    /// The volumes of the pool; half of each counts as used.
    pub fn list_zvols(&self) -> (r: Result<Vec<ZvolInfo>, Error>)
        ensures
            r is Ok,
            r->Ok_0@.len() == self.zvols@.len(),
            forall|i: int|
                0 <= i < self.zvols@.len() ==> {
                    let info = #[trigger] r->Ok_0@[i];
                    &&& info.volume_id == self.zvols@[i].volume_id
                    &&& info.size_bytes == self.zvols@[i].size_bytes
                    &&& info.used_bytes == self.zvols@[i].size_bytes as int / 2
                    &&& info.name@ == self.pool_name@ + "/vol-"@ + self.zvols@[i].volume_id.text()
                },
    {
        let mut r: Vec<ZvolInfo> = Vec::new();
        let mut i: usize = 0;
        while i < self.zvols.len()
            invariant
                i <= self.zvols@.len(),
                r@.len() == i,
                forall|j: int|
                    0 <= j < i ==> (#[trigger] r@[j]).volume_id == self.zvols@[j].volume_id
                        && r@[j].size_bytes == self.zvols@[j].size_bytes && r@[j].used_bytes
                        == self.zvols@[j].size_bytes as int / 2 && r@[j].name@ == self.pool_name@
                        + "/vol-"@ + self.zvols@[j].volume_id.text(),
            decreases self.zvols@.len() - i,
        {
            let z = &self.zvols[i];
            r.push(
                ZvolInfo {
                    name: join3(
                        self.pool_name.as_str(),
                        "/vol-",
                        z.volume_id.to_text().as_str(),
                    ),
                    volume_id: z.volume_id,
                    size_bytes: z.size_bytes,
                    used_bytes: z.size_bytes / 2,
                },
            );
            i = i + 1;
        }
        Ok(r)
    }

    /// The pool's name.
    pub fn pool_name(&self) -> (r: &str)
        ensures
            r@ == self.pool_name@,
    {
        self.pool_name.as_str()
    }
}

proof fn lemma_total_size_prefix(zvols: Seq<ZvolEntry>, count: int)
    requires
        0 <= count <= zvols.len(),
    ensures
        total_size(zvols.take(count)) <= total_size(zvols),
    decreases zvols.len(),
{
    if count == zvols.len() {
        assert(zvols.take(count) =~= zvols);
    } else {
        assert(zvols.drop_last().take(count) =~= zvols.take(count));
        lemma_total_size_prefix(zvols.drop_last(), count);
    }
}

/// A pool never promises more than it has: a volume that is created leaves the sum of
/// the sizes within the capacity.
pub proof fn creation_respects_capacity(zvols: Seq<ZvolEntry>, entry: ZvolEntry, capacity: u64)
    requires
        total_size(zvols) + entry.size_bytes <= capacity,
    ensures
        total_size(zvols.push(entry)) <= capacity,
{
    assert(zvols.push(entry).drop_last() =~= zvols);
}

/// The used space of a pool is the sum of the sizes of its volumes.
pub proof fn used_space_is_the_sum_of_sizes(zvols: Seq<ZvolEntry>)
    ensures
        total_size(zvols) == zvols.fold_left(0int, |n: int, z: ZvolEntry| n + z.size_bytes),
    decreases zvols.len(),
{
    reveal(Seq::fold_left);
    if zvols.len() > 0 {
        used_space_is_the_sum_of_sizes(zvols.drop_last());
    }
}

/// A volume that exists is found at its own position, and nowhere else.
pub proof fn volumes_are_found_where_they_are(zvols: Seq<ZvolEntry>, id: VolumeId)
    requires
        zvols_distinct(zvols),
    ensures
        has_zvol(zvols, id) <==> 0 <= zvol_position(zvols, id, 0) < zvols.len(),
        has_zvol(zvols, id) ==> zvols[zvol_position(zvols, id, 0)].volume_id == id,
        forall|i: int|
            0 <= i < zvols.len() && (#[trigger] zvols[i]).volume_id == id ==> i == zvol_position(
                zvols,
                id,
                0,
            ),
{
    lemma_position_from(zvols, id, 0);
    let p = zvol_position(zvols, id, 0);
    assert forall|i: int| 0 <= i < zvols.len() && (#[trigger] zvols[i]).volume_id == id implies i
        == p by {
        if i > p {
            assert(zvols[p].volume_id != zvols[i].volume_id);
        }
    }
}

proof fn lemma_position_from(zvols: Seq<ZvolEntry>, id: VolumeId, from: int)
    requires
        0 <= from <= zvols.len(),
    ensures
        from <= zvol_position(zvols, id, from) <= zvols.len(),
        forall|i: int| from <= i < zvol_position(zvols, id, from) ==> (#[trigger] zvols[i]).volume_id
            != id,
        zvol_position(zvols, id, from) < zvols.len() ==> zvols[zvol_position(
            zvols,
            id,
            from,
        )].volume_id == id,
    decreases zvols.len() - from,
{
    if from < zvols.len() && zvols[from].volume_id != id {
        lemma_position_from(zvols, id, from + 1);
    }
}

} // verus!
