//! The state machine of a volume group.

use crate::collections::{copy_items, group_map_values};
use crate::name_map::NameMap;
use crate::raft::types::{RaftRequest, RaftResponse};
use crate::text::{decimal, decimal_text, join2};
use crate::types::NodeState;
use std::collections::BTreeMap;
use vstd::prelude::*;

verus! {

broadcast use {group_map_values, vstd::std_specs::btree::group_btree_axioms};

/// What a group knows of a volume.
#[derive(Clone, Debug)]
pub struct VolumeRecord {
    pub size_bytes: u64,
    pub replicas: u32,
    /// The consistency mode, once it was set.
    pub consistency: Option<String>,
    /// The read policy, once it was set.
    pub read_policy: Option<String>,
}

/// What a group knows of a node.
#[derive(Clone, Debug)]
pub struct NodeRecord {
    pub addr: String,
    pub state: NodeState,
}

/// The state of a volume group.
#[derive(Clone, Debug)]
pub struct AppState {
    /// The index of the last request that was applied.
    pub applied_index: u64,
    pub volumes: NameMap<VolumeRecord>,
    pub nodes: BTreeMap<u64, NodeRecord>,
    /// The nodes that hold each volume.
    pub placements: NameMap<Vec<u64>>,
    /// Source and target of each volume that is being moved.
    pub moves: NameMap<(u64, u64)>,
}

/// The state of a volume group, as a mathematical value.
pub struct AppModel {
    pub applied_index: u64,
    pub volumes: Map<Seq<char>, VolumeRecord>,
    pub nodes: Map<u64, NodeRecord>,
    pub placements: Map<Seq<char>, Seq<u64>>,
    pub moves: Map<Seq<char>, (u64, u64)>,
}

/// What an answer says.
pub enum RaftAnswer {
    Done,
    Error(Seq<char>),
    Data(Seq<u8>),
}

impl View for RaftResponse {
    type V = RaftAnswer;

    open spec fn view(&self) -> RaftAnswer {
        match *self {
            RaftResponse::Done => RaftAnswer::Done,
            RaftResponse::Error(msg) => RaftAnswer::Error(msg@),
            RaftResponse::Data(data) => RaftAnswer::Data(data@),
        }
    }
}

/// The nodes that hold each volume.
pub open spec fn placements_view(m: Map<Seq<char>, Vec<u64>>) -> Map<Seq<char>, Seq<u64>> {
    m.map_values(|v: Vec<u64>| v@)
}

impl View for AppState {
    type V = AppModel;

    open spec fn view(&self) -> AppModel {
        AppModel {
            applied_index: self.applied_index,
            volumes: self.volumes@,
            nodes: self.nodes@,
            placements: placements_view(self.placements@),
            moves: self.moves@,
        }
    }
}

impl AppModel {
    /// The state of a new group.
    pub open spec fn initial() -> Self {
        AppModel {
            applied_index: 0,
            volumes: Map::empty(),
            nodes: Map::empty(),
            placements: Map::empty(),
            moves: Map::empty(),
        }
    }

    /// The state with a volume's record replaced, or a refusal where the volume
    /// does not exist.
    pub open spec fn set_volume(self, name: Seq<char>, record: VolumeRecord) -> (Self, RaftAnswer) {
        if self.volumes.contains_key(name) {
            (AppModel { volumes: self.volumes.insert(name, record), ..self }, RaftAnswer::Done)
        } else {
            (self, RaftAnswer::Error("volume not found: "@ + name))
        }
    }

    /// The state with a node's state replaced, or a refusal where the node does
    /// not exist.
    pub open spec fn set_node_state(self, node_id: u64, state: NodeState) -> (Self, RaftAnswer) {
        if self.nodes.contains_key(node_id) {
            (
                AppModel {
                    nodes: self.nodes.insert(node_id, NodeRecord { state, ..self.nodes[node_id] }),
                    ..self
                },
                RaftAnswer::Done,
            )
        } else {
            (self, RaftAnswer::Error("node not found: "@ + decimal(node_id as nat)))
        }
    }

    /// How a request changes what the group knows, and the answer to it.
    pub open spec fn apply(self, req: RaftRequest) -> (Self, RaftAnswer) {
        match req {
            RaftRequest::VolumeCreate { name, size_bytes, replicas } => if self.volumes.contains_key(
                name@,
            ) {
                (self, RaftAnswer::Error("volume already exists: "@ + name@))
            } else {
                (
                    AppModel {
                        volumes: self.volumes.insert(
                            name@,
                            VolumeRecord {
                                size_bytes,
                                replicas,
                                consistency: None,
                                read_policy: None,
                            },
                        ),
                        ..self
                    },
                    RaftAnswer::Done,
                )
            },
            RaftRequest::VolumeDelete { name } => if self.volumes.contains_key(name@) {
                (AppModel { volumes: self.volumes.remove(name@), ..self }, RaftAnswer::Done)
            } else {
                (self, RaftAnswer::Error("volume not found: "@ + name@))
            },
            RaftRequest::VolumeResize { name, new_size } => self.set_volume(
                name@,
                VolumeRecord { size_bytes: new_size, ..self.volumes[name@] },
            ),
            RaftRequest::VolumeExpand { name, new_size } => self.set_volume(
                name@,
                VolumeRecord { size_bytes: new_size, ..self.volumes[name@] },
            ),
            RaftRequest::VolumeSetReplicas { name, replicas } => self.set_volume(
                name@,
                VolumeRecord { replicas, ..self.volumes[name@] },
            ),
            RaftRequest::VolumeSetConsistency { name, consistency } => self.set_volume(
                name@,
                VolumeRecord { consistency: Some(consistency), ..self.volumes[name@] },
            ),
            RaftRequest::VolumeSetReadPolicy { name, read_policy } => self.set_volume(
                name@,
                VolumeRecord { read_policy: Some(read_policy), ..self.volumes[name@] },
            ),
            RaftRequest::PlacementUpdate { volume_name, nodes } => (
                AppModel { placements: self.placements.insert(volume_name@, nodes@), ..self },
                RaftAnswer::Done,
            ),
            RaftRequest::NodeRegister { node_id, addr } => (
                AppModel {
                    nodes: self.nodes.insert(
                        node_id,
                        NodeRecord { addr, state: NodeState::Healthy },
                    ),
                    ..self
                },
                RaftAnswer::Done,
            ),
            RaftRequest::NodeDeregister { node_id } => if self.nodes.contains_key(node_id) {
                (AppModel { nodes: self.nodes.remove(node_id), ..self }, RaftAnswer::Done)
            } else {
                (self, RaftAnswer::Error("node not found: "@ + decimal(node_id as nat)))
            },
            RaftRequest::NodeDrain { node_id } => self.set_node_state(node_id, NodeState::Draining),
            RaftRequest::NodeDrainComplete { node_id } => self.set_node_state(
                node_id,
                NodeState::Drained,
            ),
            RaftRequest::Write { .. } => (self, RaftAnswer::Done),
            RaftRequest::RebalanceStart { volume_name, source, target } => (
                AppModel { moves: self.moves.insert(volume_name@, (source, target)), ..self },
                RaftAnswer::Done,
            ),
            RaftRequest::RebalanceComplete { volume_name } => (
                AppModel { moves: self.moves.remove(volume_name@), ..self },
                RaftAnswer::Done,
            ),
            RaftRequest::RebalanceFail { volume_name, .. } => (
                AppModel { moves: self.moves.remove(volume_name@), ..self },
                RaftAnswer::Done,
            ),
        }
    }

    /// How a request at a log index changes the state, and the answer to it.
    pub open spec fn apply_at(self, index: u64, req: RaftRequest) -> (Self, RaftAnswer) {
        let (m, answer) = self.apply(req);
        (AppModel { applied_index: index, ..m }, answer)
    }
}

/// A refused request changes nothing but the index of the last request.
pub proof fn refused_group_request_changes_only_the_index(m: AppModel, index: u64, req: RaftRequest)
    requires
        m.apply_at(index, req).1 is Error,
    ensures
        m.apply_at(index, req).0 == (AppModel { applied_index: index, ..m }),
{
}

/// A copy of a text that may be missing.
fn copy_opt(s: &Option<String>) -> (r: Option<String>)
    ensures
        r == *s,
{
    match s {
        Some(t) => Some(t.clone()),
        None => None,
    }
}

impl VolumeRecord {
    /// A copy of the record.
    pub fn copy(&self) -> (r: Self)
        ensures
            r == *self,
    {
        VolumeRecord {
            size_bytes: self.size_bytes,
            replicas: self.replicas,
            consistency: copy_opt(&self.consistency),
            read_policy: copy_opt(&self.read_policy),
        }
    }
}

impl Default for AppState {
    fn default() -> (r: Self)
        ensures
            r@ == AppModel::initial(),
    {
        AppState {
            applied_index: 0,
            volumes: NameMap::new(),
            nodes: BTreeMap::new(),
            placements: NameMap::new(),
            moves: NameMap::new(),
        }
    }
}

impl AppState {
    fn volume(&self, name: &String) -> (r: Option<VolumeRecord>)
        ensures
            match r {
                Some(v) => self@.volumes.contains_key(name@) && v == self@.volumes[name@],
                None => !self@.volumes.contains_key(name@),
            },
    {
        match self.volumes.get(name.as_str()) {
            Some(v) => Some(v.copy()),
            None => None,
        }
    }

    fn no_volume(name: &String) -> (r: RaftResponse)
        ensures
            r@ == RaftAnswer::Error("volume not found: "@ + name@),
    {
        RaftResponse::Error(join2("volume not found: ", name.as_str()))
    }

    fn no_node(node_id: u64) -> (r: RaftResponse)
        ensures
            r@ == RaftAnswer::Error("node not found: "@ + decimal(node_id as nat)),
    {
        RaftResponse::Error(join2("node not found: ", decimal_text(node_id).as_str()))
    }

    fn set_node_state(&mut self, node_id: u64, state: NodeState) -> (r: RaftResponse)
        ensures
            (final(self)@, r@) == old(self)@.set_node_state(node_id, state),
    {
        let addr: String = match self.nodes.get(&node_id) {
            Some(n) => n.addr.clone(),
            None => {
                return Self::no_node(node_id);
            },
        };
        self.nodes.insert(node_id, NodeRecord { addr, state });
        RaftResponse::Done
    }

    fn apply_request(&mut self, req: &RaftRequest) -> (r: RaftResponse)
        ensures
            (final(self)@, r@) == old(self)@.apply(*req),
    {
        match req {
            RaftRequest::VolumeCreate { name, size_bytes, replicas } => {
                if self.volumes.contains_key(name.as_str()) {
                    return RaftResponse::Error(join2("volume already exists: ", name.as_str()));
                }
                self.volumes.insert(
                    name.clone(),
                    VolumeRecord {
                        size_bytes: *size_bytes,
                        replicas: *replicas,
                        consistency: None,
                        read_policy: None,
                    },
                );
            },
            RaftRequest::VolumeDelete { name } => {
                if self.volumes.remove(name.as_str()).is_none() {
                    assert(self@.volumes =~= old(self)@.volumes);
                    return Self::no_volume(name);
                }
            },
            RaftRequest::VolumeResize { name, new_size } => {
                match self.volume(name) {
                    Some(mut record) => {
                        record.size_bytes = *new_size;
                        self.volumes.insert(name.clone(), record);
                    },
                    None => {
                        return Self::no_volume(name);
                    },
                }
            },
            RaftRequest::VolumeExpand { name, new_size } => {
                match self.volume(name) {
                    Some(mut record) => {
                        record.size_bytes = *new_size;
                        self.volumes.insert(name.clone(), record);
                    },
                    None => {
                        return Self::no_volume(name);
                    },
                }
            },
            RaftRequest::VolumeSetReplicas { name, replicas } => {
                match self.volume(name) {
                    Some(mut record) => {
                        record.replicas = *replicas;
                        self.volumes.insert(name.clone(), record);
                    },
                    None => {
                        return Self::no_volume(name);
                    },
                }
            },
            RaftRequest::VolumeSetConsistency { name, consistency } => {
                match self.volume(name) {
                    Some(mut record) => {
                        record.consistency = Some(consistency.clone());
                        self.volumes.insert(name.clone(), record);
                    },
                    None => {
                        return Self::no_volume(name);
                    },
                }
            },
            RaftRequest::VolumeSetReadPolicy { name, read_policy } => {
                match self.volume(name) {
                    Some(mut record) => {
                        record.read_policy = Some(read_policy.clone());
                        self.volumes.insert(name.clone(), record);
                    },
                    None => {
                        return Self::no_volume(name);
                    },
                }
            },
            RaftRequest::PlacementUpdate { volume_name, nodes } => {
                self.placements.insert(volume_name.clone(), copy_items(nodes));
            },
            RaftRequest::NodeRegister { node_id, addr } => {
                self.nodes.insert(
                    *node_id,
                    NodeRecord { addr: addr.clone(), state: NodeState::Healthy },
                );
            },
            RaftRequest::NodeDeregister { node_id } => {
                if self.nodes.remove(node_id).is_none() {
                    assert(self@.nodes =~= old(self)@.nodes);
                    return Self::no_node(*node_id);
                }
            },
            RaftRequest::NodeDrain { node_id } => {
                return self.set_node_state(*node_id, NodeState::Draining);
            },
            RaftRequest::NodeDrainComplete { node_id } => {
                return self.set_node_state(*node_id, NodeState::Drained);
            },
            RaftRequest::Write { .. } => {},
            RaftRequest::RebalanceStart { volume_name, source, target } => {
                self.moves.insert(volume_name.clone(), (*source, *target));
            },
            RaftRequest::RebalanceComplete { volume_name } => {
                self.moves.remove(volume_name.as_str());
            },
            RaftRequest::RebalanceFail { volume_name, .. } => {
                self.moves.remove(volume_name.as_str());
            },
        }
        RaftResponse::Done
    }
}

/// The state machine of a volume group.
#[derive(Clone, Debug)]
pub struct StateMachine {
    pub state: AppState,
}

impl StateMachine {
    /// The state machine of a new group.
    pub fn new() -> (r: Self)
        ensures
            r.state@ == AppModel::initial(),
    {
        StateMachine { state: AppState::default() }
    }

    /// Applies the request at a log index.
    pub fn apply(&mut self, index: u64, req: &RaftRequest) -> (r: RaftResponse)
        ensures
            (final(self).state@, r@) == old(self).state@.apply_at(index, *req),
    {
        let r = self.state.apply_request(req);
        self.state.applied_index = index;
        r
    }

    /// The current state.
    pub fn state(&self) -> (r: &AppState)
        ensures
            *r == self.state,
    {
        &self.state
    }
}

/// The model of a group's state holds each field of each record as the records have it.
pub proof fn the_model_shows_the_group(state: AppState)
    ensures
        state@.applied_index == state.applied_index,
        state@.volumes == state.volumes@,
        state@.nodes == state.nodes@,
        state@.moves == state.moves@,
        forall|k: Seq<char>| #[trigger]
            state@.placements.contains_key(k) <==> state.placements@.contains_key(k),
        forall|k: Seq<char>| #[trigger]
            state.placements@.contains_key(k) ==> state@.placements[k] == state.placements@[k]@,
{
}

/// Whether a request to a group is about a volume.
pub open spec fn touches_volume(req: RaftRequest, name: Seq<char>) -> bool {
    match req {
        RaftRequest::VolumeCreate { name: n, .. } => n@ == name,
        RaftRequest::VolumeDelete { name: n } => n@ == name,
        RaftRequest::VolumeResize { name: n, .. } => n@ == name,
        RaftRequest::VolumeExpand { name: n, .. } => n@ == name,
        RaftRequest::VolumeSetReplicas { name: n, .. } => n@ == name,
        RaftRequest::VolumeSetConsistency { name: n, .. } => n@ == name,
        RaftRequest::VolumeSetReadPolicy { name: n, .. } => n@ == name,
        _ => false,
    }
}

/// A group keeps its volumes as told: a volume that is created has the size and the replicas
/// asked for and nothing set; each setting replaces one field and leaves the others; a
/// volume that is deleted is gone. Creation is refused where the volume exists, and all else
/// where it does not. Requests about one volume leave the others alone.
pub proof fn group_volumes_are_kept_as_told(
    m: AppModel,
    index: u64,
    req: RaftRequest,
    name: Seq<char>,
)
    ensures
        ({
            let (after, answer) = m.apply_at(index, req);
            let had = m.volumes[name];
            let has = after.volumes[name];
            &&& after.applied_index == index
            &&& !touches_volume(req, name) ==> after.volumes.contains_key(name)
                == m.volumes.contains_key(name) && (m.volumes.contains_key(name) ==> has == had)
            &&& touches_volume(req, name) ==> {
                &&& answer is Done || answer is Error
                &&& answer is Error <==> (req is VolumeCreate) == m.volumes.contains_key(name)
                &&& answer is Error ==> after.volumes == m.volumes
                &&& after.nodes == m.nodes
                &&& after.placements == m.placements
                &&& after.moves == m.moves
            }
            &&& touches_volume(req, name) && answer is Done ==> match req {
                RaftRequest::VolumeCreate { size_bytes, replicas, .. } => {
                    &&& after.volumes.contains_key(name)
                    &&& has.size_bytes == size_bytes
                    &&& has.replicas == replicas
                    &&& has.consistency is None
                    &&& has.read_policy is None
                },
                RaftRequest::VolumeDelete { .. } => !after.volumes.contains_key(name),
                RaftRequest::VolumeResize { new_size, .. } => {
                    &&& after.volumes.contains_key(name)
                    &&& has.size_bytes == new_size
                    &&& has.replicas == had.replicas
                    &&& has.consistency == had.consistency
                    &&& has.read_policy == had.read_policy
                },
                RaftRequest::VolumeExpand { new_size, .. } => {
                    &&& after.volumes.contains_key(name)
                    &&& has.size_bytes == new_size
                    &&& has.replicas == had.replicas
                    &&& has.consistency == had.consistency
                    &&& has.read_policy == had.read_policy
                },
                RaftRequest::VolumeSetReplicas { replicas, .. } => {
                    &&& after.volumes.contains_key(name)
                    &&& has.size_bytes == had.size_bytes
                    &&& has.replicas == replicas
                    &&& has.consistency == had.consistency
                    &&& has.read_policy == had.read_policy
                },
                RaftRequest::VolumeSetConsistency { consistency, .. } => {
                    &&& after.volumes.contains_key(name)
                    &&& has.size_bytes == had.size_bytes
                    &&& has.replicas == had.replicas
                    &&& has.consistency == Some(consistency)
                    &&& has.read_policy == had.read_policy
                },
                RaftRequest::VolumeSetReadPolicy { read_policy, .. } => {
                    &&& after.volumes.contains_key(name)
                    &&& has.size_bytes == had.size_bytes
                    &&& has.replicas == had.replicas
                    &&& has.consistency == had.consistency
                    &&& has.read_policy == Some(read_policy)
                },
                _ => true,
            }
        }),
{
}

/// A group keeps its nodes, placements and moves as told: a node that registers is healthy
/// at its address, one that drains is draining and then drained, with its address kept, and
/// one that deregisters is gone; a volume's placement is the one told last, and a move is
/// there from its start to its end. Other nodes, placements and moves stay; only what is said
/// of a node that is not there is refused.
pub proof fn group_members_are_kept_as_told(m: AppModel, index: u64, req: RaftRequest)
    ensures
        ({
            let (after, answer) = m.apply_at(index, req);
            &&& after.applied_index == index
            &&& match req {
                RaftRequest::NodeRegister { node_id, addr } => {
                    &&& answer is Done
                    &&& after.nodes.contains_key(node_id)
                    &&& after.nodes[node_id].addr == addr
                    &&& after.nodes[node_id].state is Healthy
                    &&& after.nodes.remove(node_id) == m.nodes.remove(node_id)
                    &&& after.volumes == m.volumes
                    &&& after.placements == m.placements
                    &&& after.moves == m.moves
                },
                RaftRequest::NodeDeregister { node_id } => {
                    &&& answer is Error <==> !m.nodes.contains_key(node_id)
                    &&& after.nodes == m.nodes.remove(node_id)
                    &&& after.volumes == m.volumes
                    &&& after.placements == m.placements
                    &&& after.moves == m.moves
                },
                RaftRequest::NodeDrain { node_id } => {
                    &&& answer is Error <==> !m.nodes.contains_key(node_id)
                    &&& m.nodes.contains_key(node_id) ==> after.nodes.contains_key(node_id)
                        && after.nodes[node_id].addr == m.nodes[node_id].addr
                        && after.nodes[node_id].state is Draining
                    &&& after.nodes.remove(node_id) == m.nodes.remove(node_id)
                    &&& after.nodes.contains_key(node_id) == m.nodes.contains_key(node_id)
                    &&& after.volumes == m.volumes
                    &&& after.placements == m.placements
                    &&& after.moves == m.moves
                },
                RaftRequest::NodeDrainComplete { node_id } => {
                    &&& answer is Error <==> !m.nodes.contains_key(node_id)
                    &&& m.nodes.contains_key(node_id) ==> after.nodes.contains_key(node_id)
                        && after.nodes[node_id].addr == m.nodes[node_id].addr
                        && after.nodes[node_id].state is Drained
                    &&& after.nodes.remove(node_id) == m.nodes.remove(node_id)
                    &&& after.nodes.contains_key(node_id) == m.nodes.contains_key(node_id)
                    &&& after.volumes == m.volumes
                    &&& after.placements == m.placements
                    &&& after.moves == m.moves
                },
                RaftRequest::PlacementUpdate { volume_name, nodes } => {
                    &&& answer is Done
                    &&& after.placements.contains_key(volume_name@)
                    &&& after.placements[volume_name@] == nodes@
                    &&& after.placements.remove(volume_name@) == m.placements.remove(volume_name@)
                    &&& after.volumes == m.volumes
                    &&& after.nodes == m.nodes
                    &&& after.moves == m.moves
                },
                RaftRequest::RebalanceStart { volume_name, source, target } => {
                    &&& answer is Done
                    &&& after.moves.contains_key(volume_name@)
                    &&& after.moves[volume_name@] == (source, target)
                    &&& after.moves.remove(volume_name@) == m.moves.remove(volume_name@)
                    &&& after.volumes == m.volumes
                    &&& after.nodes == m.nodes
                    &&& after.placements == m.placements
                },
                RaftRequest::RebalanceComplete { volume_name } => {
                    &&& answer is Done
                    &&& after.moves == m.moves.remove(volume_name@)
                    &&& after.volumes == m.volumes
                    &&& after.nodes == m.nodes
                    &&& after.placements == m.placements
                },
                RaftRequest::RebalanceFail { volume_name, .. } => {
                    &&& answer is Done
                    &&& after.moves == m.moves.remove(volume_name@)
                    &&& after.volumes == m.volumes
                    &&& after.nodes == m.nodes
                    &&& after.placements == m.placements
                },
                RaftRequest::Write { .. } => {
                    &&& answer is Done
                    &&& after.volumes == m.volumes
                    &&& after.nodes == m.nodes
                    &&& after.placements == m.placements
                    &&& after.moves == m.moves
                },
                _ => after.nodes == m.nodes && after.placements == m.placements && after.moves
                    == m.moves,
            }
        }),
{
    let after = m.apply_at(index, req).0;
    match req {
        RaftRequest::NodeRegister { node_id, .. } => {
            assert(after.nodes.remove(node_id) =~= m.nodes.remove(node_id));
        },
        RaftRequest::NodeDeregister { node_id } => {
            assert(after.nodes =~= m.nodes.remove(node_id));
        },
        RaftRequest::NodeDrain { node_id } => {
            assert(after.nodes.remove(node_id) =~= m.nodes.remove(node_id));
        },
        RaftRequest::NodeDrainComplete { node_id } => {
            assert(after.nodes.remove(node_id) =~= m.nodes.remove(node_id));
        },
        RaftRequest::PlacementUpdate { volume_name, .. } => {
            assert(after.placements.remove(volume_name@) =~= m.placements.remove(volume_name@));
        },
        RaftRequest::RebalanceStart { volume_name, .. } => {
            assert(after.moves.remove(volume_name@) =~= m.moves.remove(volume_name@));
        },
        _ => {},
    }
}

} // verus!
