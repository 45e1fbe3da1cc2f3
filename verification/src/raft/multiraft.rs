//! The consensus groups of a node.

use crate::raft::app_state::{AppModel, AppState, StateMachine};
use crate::raft::types::{RaftRequest, RaftResponse};
use crate::text::{decimal, decimal_text, join2};
use crate::types::{Error, RaftGroupId};
use std::collections::BTreeMap;
use vstd::prelude::*;

verus! {

broadcast use vstd::std_specs::btree::group_btree_axioms;

/// A consensus group: its state machine, and the index of the next request.
#[derive(Clone, Debug)]
pub struct RaftGroup {
    pub state_machine: StateMachine,
    pub next_index: u64,
}

impl RaftGroup {
    /// The index of the next request is one past the last that was applied.
    pub open spec fn wf(&self) -> bool {
        self.next_index == self.state_machine.state.applied_index + 1
    }

    /// A new group, whose first request gets index 1.
    pub fn new() -> (r: Self)
        ensures
            r.state_machine.state@ == AppModel::initial(),
            r.next_index == 1,
            r.wf(),
    {
        RaftGroup { state_machine: StateMachine::new(), next_index: 1 }
    }

    /// Gives the request the next index and applies it.
    pub fn propose(&mut self, req: &RaftRequest) -> (r: RaftResponse)
        requires
            old(self).next_index < u64::MAX,
        ensures
            final(self).next_index == old(self).next_index + 1,
            (final(self).state_machine.state@, r@) == old(self).state_machine.state@.apply_at(
                old(self).next_index,
                *req,
            ),
            final(self).wf(),
    {
        let index = self.next_index;
        self.next_index = self.next_index + 1;
        self.state_machine.apply(index, req)
    }
}

/// The consensus groups of a node.
#[derive(Clone, Debug)]
pub struct MultiRaft {
    pub groups: BTreeMap<u64, RaftGroup>,
    pub node_id: u64,
}

impl Default for MultiRaft {
    fn default() -> (r: Self)
        ensures
            r.node_id == 0,
            r.groups@ == Map::<u64, RaftGroup>::empty(),
    {
        Self::new(0)
    }
}

impl MultiRaft {
    /// Every group is well formed.
    pub open spec fn wf(&self) -> bool {
        forall|g: u64| #[trigger] self.groups@.contains_key(g) ==> self.groups@[g].wf()
    }

    /// A node without groups.
    pub fn new(node_id: u64) -> (r: Self)
        ensures
            r.node_id == node_id,
            r.groups@ == Map::<u64, RaftGroup>::empty(),
    {
        MultiRaft { groups: BTreeMap::new(), node_id }
    }

    /// The node.
    pub fn node_id(&self) -> (r: u64)
        ensures
            r == self.node_id,
    {
        self.node_id
    }

    /// Adds a group; refused where the group exists.
    pub fn create_group(&mut self, group_id: RaftGroupId) -> (r: Result<(), Error>)
        ensures
            final(self).node_id == old(self).node_id,
            old(self).wf() ==> final(self).wf(),
            match r {
                Ok(_) => {
                    &&& !old(self).groups@.contains_key(group_id)
                    &&& final(self).groups@.dom() == old(self).groups@.dom().insert(group_id)
                    &&& final(self).groups@.remove(group_id) == old(self).groups@
                    &&& final(self).groups@[group_id].state_machine.state@ == AppModel::initial()
                    &&& final(self).groups@[group_id].next_index == 1
                },
                Err(e) => {
                    &&& old(self).groups@.contains_key(group_id)
                    &&& final(self).groups@ == old(self).groups@
                    &&& e is Raft
                    &&& e->Raft_0@ == "group already exists: "@ + decimal(group_id as nat)
                },
            },
    {
        if self.groups.contains_key(&group_id) {
            return Err(
                Error::Raft(
                    join2("group already exists: ", decimal_text(group_id).as_str()),
                ),
            );
        }
        self.groups.insert(group_id, RaftGroup::new());
        assert(self.groups@.remove(group_id) =~= old(self).groups@);
        Ok(())
    }

    /// Whether a group can take another request.
    pub fn can_propose(&self, group_id: RaftGroupId) -> (r: bool)
        ensures
            r == (self.groups@.contains_key(group_id) ==> self.groups@[group_id].next_index
                < u64::MAX),
    {
        match self.groups.get(&group_id) {
            Some(group) => group.next_index < u64::MAX,
            None => true,
        }
    }

    /// Hands a request to a group.
    pub fn propose(&mut self, group_id: RaftGroupId, req: &RaftRequest) -> (r: Result<
        RaftResponse,
        Error,
    >)
        requires
            old(self).groups@.contains_key(group_id) ==> old(self).groups@[group_id].next_index
                < u64::MAX,
        ensures
            final(self).node_id == old(self).node_id,
            old(self).wf() ==> final(self).wf(),
            match r {
                Ok(resp) => {
                    &&& old(self).groups@.contains_key(group_id)
                    &&& final(self).groups@.dom() == old(self).groups@.dom()
                    &&& final(self).groups@.remove(group_id) == old(self).groups@.remove(group_id)
                    &&& final(self).groups@[group_id].next_index
                        == old(self).groups@[group_id].next_index + 1
                    &&& (final(self).groups@[group_id].state_machine.state@, resp@) == old(
                        self,
                    ).groups@[group_id].state_machine.state@.apply_at(
                        old(self).groups@[group_id].next_index,
                        *req,
                    )
                },
                Err(e) => {
                    &&& !old(self).groups@.contains_key(group_id)
                    &&& final(self).groups@ == old(self).groups@
                    &&& e is Raft
                    &&& e->Raft_0@ == "group not found: "@ + decimal(group_id as nat)
                },
            },
    {
        match self.groups.remove(&group_id) {
            Some(mut group) => {
                let resp = group.propose(req);
                self.groups.insert(group_id, group);
                assert(self.groups@.dom() =~= old(self).groups@.dom());
                assert(self.groups@.remove(group_id) =~= old(self).groups@.remove(group_id));
                Ok(resp)
            },
            None => {
                assert(self.groups@ =~= old(self).groups@);
                Err(
                    Error::Raft(join2("group not found: ", decimal_text(group_id).as_str())),
                )
            },
        }
    }

    /// The number of groups.
    pub fn group_count(&self) -> (r: usize)
        ensures
            r == self.groups@.len(),
    {
        self.groups.len()
    }

    /// Whether the node has a group.
    pub fn has_group(&self, group_id: RaftGroupId) -> (r: bool)
        ensures
            r == self.groups@.contains_key(group_id),
    {
        self.groups.contains_key(&group_id)
    }

    /// The state of a group.
    pub fn get_state(&self, group_id: RaftGroupId) -> (r: Option<&AppState>)
        ensures
            match r {
                Some(state) => self.groups@.contains_key(group_id) && *state
                    == self.groups@[group_id].state_machine.state,
                None => !self.groups@.contains_key(group_id),
            },
    {
        match self.groups.get(&group_id) {
            Some(group) => Some(group.state_machine.state()),
            None => None,
        }
    }

    /// Takes a group out; tells whether there was one.
    pub fn remove_group(&mut self, group_id: RaftGroupId) -> (r: bool)
        ensures
            r == old(self).groups@.contains_key(group_id),
            final(self).groups@ == old(self).groups@.remove(group_id),
            final(self).node_id == old(self).node_id,
            old(self).wf() ==> final(self).wf(),
    {
        self.groups.remove(&group_id).is_some()
    }
}

} // verus!
