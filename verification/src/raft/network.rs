//! Routing of calls between nodes of one process.

use crate::text::{decimal, decimal_text, join3};
use std::collections::BTreeMap;
use vstd::prelude::*;

verus! {

broadcast use vstd::std_specs::btree::group_btree_axioms;

/// The nodes that can be called.  `R` is the handle by which a node is called.
#[derive(Clone, Debug)]
pub struct Router<R> {
    pub targets: BTreeMap<u64, R>,
}

impl<R> Router<R> {
    /// No nodes.
    pub fn new() -> (r: Self)
        ensures
            r.targets@ == Map::<u64, R>::empty(),
    {
        Router { targets: BTreeMap::new() }
    }

    /// Adds a node, or replaces its handle.
    pub fn add_node(&mut self, id: u64, raft: R)
        ensures
            final(self).targets@ == old(self).targets@.insert(id, raft),
    {
        self.targets.insert(id, raft);
    }

    /// Takes a node out.
    pub fn remove_node(&mut self, id: u64)
        ensures
            final(self).targets@ == old(self).targets@.remove(id),
    {
        self.targets.remove(&id);
    }

    /// The handle of a node.
    pub fn get(&self, id: u64) -> (r: Option<&R>)
        ensures
            match r {
                Some(h) => self.targets@.contains_key(id) && *h == self.targets@[id],
                None => !self.targets@.contains_key(id),
            },
    {
        self.targets.get(&id)
    }

    /// The handle of a node, or what to say where it is not known.
    pub fn get_target(&self, id: u64) -> (r: Result<&R, String>)
        ensures
            match r {
                Ok(h) => self.targets@.contains_key(id) && *h == self.targets@[id],
                Err(e) => !self.targets@.contains_key(id) && e@ == "node "@ + decimal(id as nat)
                    + " not found in router"@,
            },
    {
        match self.targets.get(&id) {
            Some(h) => Ok(h),
            None => Err(join3("node ", decimal_text(id).as_str(), " not found in router")),
        }
    }
}

impl<R> Default for Router<R> {
    fn default() -> (r: Self)
        ensures
            r.targets@ == Map::<u64, R>::empty(),
    {
        Self::new()
    }
}

} // verus!
