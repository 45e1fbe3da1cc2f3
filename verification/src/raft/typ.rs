//! Log positions, votes, memberships and log entries.

use crate::raft::request::MetadataRequest;
use crate::collections::copy_items;
use crate::text::{decimal, decimal_text, join3, join4};
use vstd::prelude::*;

verus! {

/// The position of a log entry: who led when it was written, and its index.
#[derive(Clone, Copy, Debug, PartialEq, Eq, Structural)]
pub struct LogId {
    pub term: u64,
    pub node_id: u64,
    pub index: u64,
}

/// A node's vote.
#[derive(Clone, Copy, Debug, PartialEq, Eq, Structural)]
pub struct Vote {
    pub term: u64,
    pub node_id: u64,
    pub committed: bool,
}

/// The voters and the known nodes of a consensus group.
#[derive(Clone, Debug, PartialEq, Eq)]
pub struct Membership {
    /// One set of voters, or two while the group changes from one to the other.
    pub configs: Vec<Vec<u64>>,
    /// The address of each node.
    pub nodes: Vec<(u64, String)>,
}

/// A membership and the position of the entry that brought it.
#[derive(Clone, Debug, PartialEq, Eq)]
pub struct StoredMembership {
    pub log_id: Option<LogId>,
    pub membership: Membership,
}

/// What a log entry carries.
#[derive(Clone, Debug)]
pub enum EntryPayload {
    /// Nothing: a new leader writes one to commit the entries before it.
    Blank,
    /// A request to the state machine.
    Normal(MetadataRequest),
    /// A new membership.
    Membership(Membership),
}

/// A log entry.
#[derive(Clone, Debug)]
pub struct Entry {
    pub log_id: LogId,
    pub payload: EntryPayload,
}

impl LogId {
    /// The position's text: the leader's term and number, and the index.
    pub open spec fn text(self) -> Seq<char> {
        "T"@ + decimal(self.term as nat) + "-N"@ + decimal(self.node_id as nat) + "-"@ + decimal(
            self.index as nat,
        )
    }

    /// The position with the given leader and index.
    pub fn new(term: u64, node_id: u64, index: u64) -> (r: Self)
        ensures
            r == (LogId { term, node_id, index }),
    {
        LogId { term, node_id, index }
    }

    /// The position's text.
    pub fn to_text(&self) -> (s: String)
        ensures
            s@ == self.text(),
    {
        let leader = join4(
            "T",
            decimal_text(self.term).as_str(),
            "-N",
            decimal_text(self.node_id).as_str(),
        );
        join3(leader.as_str(), "-", decimal_text(self.index).as_str())
    }
}

impl Vote {
    /// A vote that no quorum has granted yet.
    pub fn new(term: u64, node_id: u64) -> (r: Self)
        ensures
            r == (Vote { term, node_id, committed: false }),
    {
        Vote { term, node_id, committed: false }
    }
}

/// What a membership says.
pub struct MembershipModel {
    pub configs: Seq<Seq<u64>>,
    pub nodes: Seq<(u64, Seq<char>)>,
}

/// What a stored membership says.
pub struct StoredMembershipModel {
    pub log_id: Option<LogId>,
    pub membership: MembershipModel,
}

impl StoredMembershipModel {
    /// The membership before any was written: no voters and no nodes.
    pub open spec fn none() -> Self {
        StoredMembershipModel {
            log_id: None,
            membership: MembershipModel { configs: Seq::empty(), nodes: Seq::empty() },
        }
    }
}

impl View for Membership {
    type V = MembershipModel;

    open spec fn view(&self) -> MembershipModel {
        MembershipModel {
            configs: self.configs@.map_values(|c: Vec<u64>| c@),
            nodes: self.nodes@.map_values(|n: (u64, String)| (n.0, n.1@)),
        }
    }
}

impl View for StoredMembership {
    type V = StoredMembershipModel;

    open spec fn view(&self) -> StoredMembershipModel {
        StoredMembershipModel { log_id: self.log_id, membership: self.membership@ }
    }
}

impl Membership {
    /// A copy of the membership.
    pub fn copy(&self) -> (r: Self)
        ensures
            r@ == self@,
    {
        let mut configs: Vec<Vec<u64>> = Vec::new();
        let mut i: usize = 0;
        while i < self.configs.len()
            invariant
                i <= self.configs@.len(),
                i == configs@.len(),
                forall|j: int| 0 <= j < i ==> (#[trigger] configs@[j])@ == self.configs@[j]@,
            decreases self.configs@.len() - i,
        {
            configs.push(copy_items(&self.configs[i]));
            i = i + 1;
        }
        let mut nodes: Vec<(u64, String)> = Vec::new();
        let mut k: usize = 0;
        while k < self.nodes.len()
            invariant
                k <= self.nodes@.len(),
                k == nodes@.len(),
                forall|j: int|
                    0 <= j < k ==> (#[trigger] nodes@[j]).0 == self.nodes@[j].0 && nodes@[j].1@
                        == self.nodes@[j].1@,
            decreases self.nodes@.len() - k,
        {
            nodes.push((self.nodes[k].0, self.nodes[k].1.clone()));
            k = k + 1;
        }
        let r = Membership { configs, nodes };
        assert(r@.configs =~= self@.configs);
        assert(r@.nodes =~= self@.nodes);
        r
    }
}

impl Default for StoredMembership {
    fn default() -> (r: Self)
        ensures
            r@ == StoredMembershipModel::none(),
    {
        let r = StoredMembership {
            log_id: None,
            membership: Membership { configs: Vec::new(), nodes: Vec::new() },
        };
        assert(r@.membership.configs =~= Seq::empty());
        assert(r@.membership.nodes =~= Seq::empty());
        r
    }
}

impl StoredMembership {
    /// A copy of the membership.
    pub fn copy(&self) -> (r: Self)
        ensures
            r@ == self@,
    {
        StoredMembership { log_id: self.log_id, membership: self.membership.copy() }
    }
}

/// The model of a membership holds all its configurations and nodes.
pub proof fn the_model_shows_the_membership(stored: StoredMembership)
    ensures
        stored@.log_id == stored.log_id,
        stored@.membership.configs.len() == stored.membership.configs@.len(),
        forall|i: int|
            0 <= i < stored.membership.configs@.len() ==> #[trigger] stored@.membership.configs[i]
                == stored.membership.configs@[i]@,
        stored@.membership.nodes.len() == stored.membership.nodes@.len(),
        forall|i: int|
            0 <= i < stored.membership.nodes@.len() ==> (
            #[trigger] stored@.membership.nodes[i]).0 == stored.membership.nodes@[i].0
                && stored@.membership.nodes[i].1 == stored.membership.nodes@[i].1@,
{
}

/// Before any membership is written there are no voters and no nodes, and no position.
pub proof fn no_membership_is_empty()
    ensures
        StoredMembershipModel::none().log_id is None,
        StoredMembershipModel::none().membership.configs.len() == 0,
        StoredMembershipModel::none().membership.nodes.len() == 0,
{
}

} // verus!
