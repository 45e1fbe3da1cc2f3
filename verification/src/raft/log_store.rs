//! The log of a volume group in memory, with its committed position.

use crate::raft::store::{indexed, lists_range, with_entries, LogState, LogStore};
use crate::raft::typ::{Entry, LogId, Vote};
use vstd::prelude::*;

verus! {

broadcast use vstd::std_specs::btree::group_btree_axioms;

/// A log in memory, with the position up to which it is committed.
#[derive(Clone, Debug)]
pub struct MemLogStore {
    pub store: LogStore,
    pub committed: Option<LogId>,
}

impl Default for MemLogStore {
    fn default() -> (r: Self)
        ensures
            r.store.log@ == Map::<u64, Entry>::empty(),
            r.store.vote is None,
            r.store.last_purged is None,
            r.committed is None,
    {
        Self::new()
    }
}

impl MemLogStore {
    /// An empty log.
    pub fn new() -> (r: Self)
        ensures
            r.store.log@ == Map::<u64, Entry>::empty(),
            r.store.vote is None,
            r.store.last_purged is None,
            r.committed is None,
    {
        MemLogStore { store: LogStore::new(), committed: None }
    }

    /// The number of entries.
    pub fn log_len(&self) -> (r: usize)
        ensures
            r == self.store.log@.len(),
    {
        self.store.log.len()
    }

    /// Writes down the position up to which the log is committed.
    pub fn save_committed(&mut self, committed: Option<LogId>)
        ensures
            final(self).committed == committed,
            final(self).store == old(self).store,
    {
        self.committed = committed;
    }

    /// The position up to which the log is committed.
    pub fn read_committed(&self) -> (r: Option<LogId>)
        ensures
            r == self.committed,
    {
        self.committed
    }

    /// The last position in the log, and the last one that was purged.
    pub fn get_log_state(&self) -> (r: LogState)
        ensures
            r.last_purged_log_id == self.store.last_purged,
            self.store.log@.len() == 0 ==> r.last_log_id is None,
            self.store.log@.len() != 0 ==> exists|k: u64|
                {
                    &&& #[trigger] self.store.log@.contains_key(k)
                    &&& r.last_log_id == Some(self.store.log@[k].log_id)
                    &&& forall|j: u64| #[trigger] self.store.log@.contains_key(j) ==> j <= k
                },
    {
        self.store.get_log_state()
    }

    /// Writes the vote down.
    pub fn save_vote(&mut self, vote: &Vote)
        ensures
            final(self).store.vote == Some(*vote),
            final(self).store.log@ == old(self).store.log@,
            final(self).store.last_purged == old(self).store.last_purged,
            final(self).committed == old(self).committed,
    {
        self.store.save_vote(vote);
    }

    /// The vote that was written down last.
    pub fn read_vote(&self) -> (r: Option<Vote>)
        ensures
            r == self.store.vote,
    {
        self.store.read_vote()
    }

    /// Writes entries into the log, each at its own index.
    pub fn append(&mut self, entries: Vec<Entry>)
        ensures
            final(self).store.log@ == with_entries(old(self).store.log@, entries@),
            indexed(old(self).store.log@) ==> indexed(final(self).store.log@),
            final(self).store.vote == old(self).store.vote,
            final(self).store.last_purged == old(self).store.last_purged,
            final(self).committed == old(self).committed,
    {
        self.store.append(entries);
    }

    /// Drops the entry at the given position and everything after it.
    pub fn truncate(&mut self, log_id: LogId)
        ensures
            final(self).store.log@ == old(self).store.log@.remove_keys(
                Set::new(|k: u64| log_id.index <= k),
            ),
            indexed(old(self).store.log@) ==> indexed(final(self).store.log@),
            final(self).store.vote == old(self).store.vote,
            final(self).store.last_purged == old(self).store.last_purged,
            final(self).committed == old(self).committed,
    {
        self.store.truncate(log_id);
    }

    /// Drops the entry at the given position and everything before it, and
    /// remembers the position.
    pub fn purge(&mut self, log_id: LogId)
        ensures
            final(self).store.log@ == old(self).store.log@.remove_keys(
                Set::new(|k: u64| k <= log_id.index),
            ),
            indexed(old(self).store.log@) ==> indexed(final(self).store.log@),
            final(self).store.vote == old(self).store.vote,
            final(self).store.last_purged == Some(log_id),
            final(self).committed == old(self).committed,
    {
        self.store.purge(log_id);
    }

    /// The entries from index `first` to index `last`, both included, in order.
    pub fn try_get_log_entries(&self, first: u64, last: u64) -> (r: Vec<&Entry>)
        requires
            indexed(self.store.log@),
        ensures
            lists_range(self.store.log@, first, last, r@),
            forall|i: int|
                0 <= i < r@.len() ==> first <= (#[trigger] r@[i]).log_id.index <= last
                    && self.store.log@.contains_key(r@[i].log_id.index) && *r@[i]
                    == self.store.log@[r@[i].log_id.index],
            forall|i: int, j: int|
                0 <= i < j < r@.len() ==> (#[trigger] r@[i]).log_id.index < (
                #[trigger] r@[j]).log_id.index,
            forall|k: u64| #[trigger]
                self.store.log@.contains_key(k) && first <= k <= last ==> exists|i: int|
                    0 <= i < r@.len() && (#[trigger] r@[i]).log_id.index == k,
    {
        self.store.try_get_log_entries(first, last)
    }
}

} // verus!
