//! Requests to a volume group's state machine, and their answers.

use crate::text::{contains_text, decimal, decimal_text, join3, join5, joined_text_contains_its_parts};
use vstd::prelude::*;

verus! {

/// A request to a volume group's state machine.
#[derive(Clone, Debug, PartialEq, Eq)]
pub enum RaftRequest {
    /// Create a volume.
    VolumeCreate { name: String, size_bytes: u64, replicas: u32 },
    /// Delete a volume.
    VolumeDelete { name: String },
    /// Change the size of a volume.
    VolumeResize { name: String, new_size: u64 },
    /// Online volume expansion through Raft consensus: each replica node sets its volume size after commit.
    VolumeExpand { name: String, new_size: u64 },
    /// Change replication factor for a volume.
    VolumeSetReplicas { name: String, replicas: u32 },
    /// Change consistency mode for a volume.
    VolumeSetConsistency { name: String, consistency: String },
    /// Change read policy for a volume.
    VolumeSetReadPolicy { name: String, read_policy: String },
    /// Record the nodes that hold a volume.
    PlacementUpdate { volume_name: String, nodes: Vec<u64> },
    /// Register a node.
    NodeRegister { node_id: u64, addr: String },
    /// Take a node out.
    NodeDeregister { node_id: u64 },
    /// Initiate draining a node: mark it as Draining and prevent new placements.
    NodeDrain { node_id: u64 },
    /// Mark a node drain as fully complete: node transitions to Drained.
    NodeDrainComplete { node_id: u64 },
    /// Write data into a volume.
    Write { volume_id: u64, offset: u64, data: Vec<u8> },
    /// Start moving a volume from one node to another.
    RebalanceStart { volume_name: String, source: u64, target: u64 },
    /// A move of a volume has been completed.
    RebalanceComplete { volume_name: String },
    /// A move of a volume has failed.
    RebalanceFail { volume_name: String, reason: String },
}

/// The answer of a volume group's state machine.
#[derive(Clone, Debug, PartialEq, Eq)]
pub enum RaftResponse {
    /// The request was carried out.
    Done,
    /// The request was refused.
    Error(String),
    /// The request was carried out and gave these bytes.
    Data(Vec<u8>),
}

impl RaftRequest {
    /// The request in short: its kind and what it is about.
    pub open spec fn text(self) -> Seq<char> {
        match self {
            RaftRequest::VolumeCreate { name, .. } => "VolumeCreate("@ + name@ + ")"@,
            RaftRequest::VolumeDelete { name } => "VolumeDelete("@ + name@ + ")"@,
            RaftRequest::VolumeResize { name, new_size } => "VolumeResize("@ + name@ + ", "@ + decimal(new_size as nat) + ")"@,
            RaftRequest::VolumeExpand { name, new_size } => "VolumeExpand("@ + name@ + ", "@ + decimal(new_size as nat) + ")"@,
            RaftRequest::VolumeSetReplicas { name, replicas } => "VolumeSetReplicas("@ + name@ + ", "@ + decimal(replicas as nat) + ")"@,
            RaftRequest::VolumeSetConsistency { name, consistency } => "VolumeSetConsistency("@ + name@ + ", "@ + consistency@ + ")"@,
            RaftRequest::VolumeSetReadPolicy { name, read_policy } => "VolumeSetReadPolicy("@ + name@ + ", "@ + read_policy@ + ")"@,
            RaftRequest::PlacementUpdate { volume_name, .. } => "PlacementUpdate("@ + volume_name@ + ")"@,
            RaftRequest::NodeRegister { node_id, .. } => "NodeRegister("@ + decimal(node_id as nat) + ")"@,
            RaftRequest::NodeDeregister { node_id } => "NodeDeregister("@ + decimal(node_id as nat) + ")"@,
            RaftRequest::NodeDrain { node_id } => "NodeDrain("@ + decimal(node_id as nat) + ")"@,
            RaftRequest::NodeDrainComplete { node_id } => "NodeDrainComplete("@ + decimal(node_id as nat) + ")"@,
            RaftRequest::Write { volume_id, offset, .. } => "Write(vol="@ + decimal(
                volume_id as nat,
            ) + ", off="@ + decimal(offset as nat) + ")"@,
            RaftRequest::RebalanceStart { volume_name, source, target } => "RebalanceStart("@
                + volume_name@ + ", "@ + decimal(source as nat) + "->"@ + decimal(target as nat)
                + ")"@,
            RaftRequest::RebalanceComplete { volume_name } => "RebalanceComplete("@ + volume_name@ + ")"@,
            RaftRequest::RebalanceFail { volume_name, reason } => "RebalanceFail("@ + volume_name@ + ", "@ + reason@ + ")"@,
        }
    }

    /// The request in short.
    pub fn to_text(&self) -> (s: String)
        ensures
            s@ == self.text(),
    {
        match self {
            RaftRequest::VolumeCreate { name, .. } => join3("VolumeCreate(", name.as_str(), ")"),
            RaftRequest::VolumeDelete { name } => join3("VolumeDelete(", name.as_str(), ")"),
            RaftRequest::VolumeResize { name, new_size } => join5(
                "VolumeResize(",
                name.as_str(),
                ", ",
                decimal_text(*new_size).as_str(),
                ")",
            ),
            RaftRequest::VolumeExpand { name, new_size } => join5(
                "VolumeExpand(",
                name.as_str(),
                ", ",
                decimal_text(*new_size).as_str(),
                ")",
            ),
            RaftRequest::VolumeSetReplicas { name, replicas } => join5(
                "VolumeSetReplicas(",
                name.as_str(),
                ", ",
                decimal_text(*replicas as u64).as_str(),
                ")",
            ),
            RaftRequest::VolumeSetConsistency { name, consistency } => join5(
                "VolumeSetConsistency(",
                name.as_str(),
                ", ",
                consistency.as_str(),
                ")",
            ),
            RaftRequest::VolumeSetReadPolicy { name, read_policy } => join5(
                "VolumeSetReadPolicy(",
                name.as_str(),
                ", ",
                read_policy.as_str(),
                ")",
            ),
            RaftRequest::PlacementUpdate { volume_name, .. } => join3("PlacementUpdate(", volume_name.as_str(), ")"),
            RaftRequest::NodeRegister { node_id, .. } => join3("NodeRegister(", decimal_text(*node_id).as_str(), ")"),
            RaftRequest::NodeDeregister { node_id } => join3("NodeDeregister(", decimal_text(*node_id).as_str(), ")"),
            RaftRequest::NodeDrain { node_id } => join3("NodeDrain(", decimal_text(*node_id).as_str(), ")"),
            RaftRequest::NodeDrainComplete { node_id } => join3("NodeDrainComplete(", decimal_text(*node_id).as_str(), ")"),
            RaftRequest::Write { volume_id, offset, .. } => join5(
                "Write(vol=",
                decimal_text(*volume_id).as_str(),
                ", off=",
                decimal_text(*offset).as_str(),
                ")",
            ),
            RaftRequest::RebalanceStart { volume_name, source, target } => {
                let head = join5(
                    "RebalanceStart(",
                    volume_name.as_str(),
                    ", ",
                    decimal_text(*source).as_str(),
                    "->",
                );
                join3(head.as_str(), decimal_text(*target).as_str(), ")")
            },
            RaftRequest::RebalanceComplete { volume_name } => join3("RebalanceComplete(", volume_name.as_str(), ")"),
            RaftRequest::RebalanceFail { volume_name, reason } => join5(
                "RebalanceFail(",
                volume_name.as_str(),
                ", ",
                reason.as_str(),
                ")",
            ),
        }
    }
}

/// The text of a request tells what it is about: every name and number that belongs to its
/// kind stands in it.
pub proof fn requests_tell_what_they_are_about(req: RaftRequest)
    ensures
        match req {
            RaftRequest::VolumeCreate { name, .. } => contains_text(req.text(), name@),
            RaftRequest::VolumeDelete { name } => contains_text(req.text(), name@),
            RaftRequest::VolumeResize { name, new_size } => contains_text(req.text(), name@)
                && contains_text(req.text(), decimal(new_size as nat)),
            RaftRequest::VolumeExpand { name, new_size } => contains_text(req.text(), name@)
                && contains_text(req.text(), decimal(new_size as nat)),
            RaftRequest::VolumeSetReplicas { name, replicas } => contains_text(req.text(), name@)
                && contains_text(req.text(), decimal(replicas as nat)),
            RaftRequest::VolumeSetConsistency { name, consistency } => contains_text(
                req.text(),
                name@,
            ) && contains_text(req.text(), consistency@),
            RaftRequest::VolumeSetReadPolicy { name, read_policy } => contains_text(
                req.text(),
                name@,
            ) && contains_text(req.text(), read_policy@),
            RaftRequest::PlacementUpdate { volume_name, .. } => contains_text(
                req.text(),
                volume_name@,
            ),
            RaftRequest::NodeRegister { node_id, .. } => contains_text(
                req.text(),
                decimal(node_id as nat),
            ),
            RaftRequest::NodeDeregister { node_id } => contains_text(
                req.text(),
                decimal(node_id as nat),
            ),
            RaftRequest::NodeDrain { node_id } => contains_text(
                req.text(),
                decimal(node_id as nat),
            ),
            RaftRequest::NodeDrainComplete { node_id } => contains_text(
                req.text(),
                decimal(node_id as nat),
            ),
            RaftRequest::Write { volume_id, offset, .. } => contains_text(
                req.text(),
                decimal(volume_id as nat),
            ) && contains_text(req.text(), decimal(offset as nat)),
            RaftRequest::RebalanceStart { volume_name, source, target } => contains_text(
                req.text(),
                volume_name@,
            ) && contains_text(req.text(), decimal(source as nat)) && contains_text(
                req.text(),
                decimal(target as nat),
            ),
            RaftRequest::RebalanceComplete { volume_name } => contains_text(
                req.text(),
                volume_name@,
            ),
            RaftRequest::RebalanceFail { volume_name, reason } => contains_text(
                req.text(),
                volume_name@,
            ) && contains_text(req.text(), reason@),
        },
{
    match req {
        RaftRequest::VolumeCreate { name, .. } => {
            joined_text_contains_its_parts("VolumeCreate("@, name@, ")"@);
        },
        RaftRequest::VolumeDelete { name } => {
            joined_text_contains_its_parts("VolumeDelete("@, name@, ")"@);
        },
        RaftRequest::VolumeResize { name, new_size } => {
            lemma_pair_in_text("VolumeResize("@, name@, ", "@, decimal(new_size as nat), ")"@);
        },
        RaftRequest::VolumeExpand { name, new_size } => {
            lemma_pair_in_text("VolumeExpand("@, name@, ", "@, decimal(new_size as nat), ")"@);
        },
        RaftRequest::VolumeSetReplicas { name, replicas } => {
            lemma_pair_in_text("VolumeSetReplicas("@, name@, ", "@, decimal(replicas as nat), ")"@);
        },
        RaftRequest::VolumeSetConsistency { name, consistency } => {
            lemma_pair_in_text("VolumeSetConsistency("@, name@, ", "@, consistency@, ")"@);
        },
        RaftRequest::VolumeSetReadPolicy { name, read_policy } => {
            lemma_pair_in_text("VolumeSetReadPolicy("@, name@, ", "@, read_policy@, ")"@);
        },
        RaftRequest::PlacementUpdate { volume_name, .. } => {
            joined_text_contains_its_parts("PlacementUpdate("@, volume_name@, ")"@);
        },
        RaftRequest::NodeRegister { node_id, .. } => {
            joined_text_contains_its_parts("NodeRegister("@, decimal(node_id as nat), ")"@);
        },
        RaftRequest::NodeDeregister { node_id } => {
            joined_text_contains_its_parts("NodeDeregister("@, decimal(node_id as nat), ")"@);
        },
        RaftRequest::NodeDrain { node_id } => {
            joined_text_contains_its_parts("NodeDrain("@, decimal(node_id as nat), ")"@);
        },
        RaftRequest::NodeDrainComplete { node_id } => {
            joined_text_contains_its_parts("NodeDrainComplete("@, decimal(node_id as nat), ")"@);
        },
        RaftRequest::Write { volume_id, offset, .. } => {
            lemma_pair_in_text(
                "Write(vol="@,
                decimal(volume_id as nat),
                ", off="@,
                decimal(offset as nat),
                ")"@,
            );
        },
        RaftRequest::RebalanceStart { volume_name, source, target } => {
            let from = decimal(source as nat);
            let to = decimal(target as nat);
            let head = "RebalanceStart("@ + volume_name@ + ", "@;
            lemma_pair_in_text(head, from, "->"@, to, ")"@);
            lemma_pair_in_text(
                "RebalanceStart("@,
                volume_name@,
                ", "@,
                from,
                "->"@ + to + ")"@,
            );
            assert(head + from + "->"@ + to + ")"@ =~= "RebalanceStart("@ + volume_name@ + ", "@
                + from + ("->"@ + to + ")"@));
        },
        RaftRequest::RebalanceComplete { volume_name } => {
            joined_text_contains_its_parts("RebalanceComplete("@, volume_name@, ")"@);
        },
        RaftRequest::RebalanceFail { volume_name, reason } => {
            lemma_pair_in_text("RebalanceFail("@, volume_name@, ", "@, reason@, ")"@);
        },
    }
}

proof fn lemma_pair_in_text(
    head: Seq<char>,
    a: Seq<char>,
    middle: Seq<char>,
    b: Seq<char>,
    tail: Seq<char>,
)
    ensures
        contains_text(head + a + middle + b + tail, a),
        contains_text(head + a + middle + b + tail, b),
{
    joined_text_contains_its_parts(head, a, middle + b + tail);
    assert(head + a + (middle + b + tail) =~= head + a + middle + b + tail);
    joined_text_contains_its_parts(head + a + middle, b, tail);
}

} // verus!
