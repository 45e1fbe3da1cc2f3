//! Metadata state machine: the strongly consistent replicated state that stores
//! cluster membership, placement map, volume metadata, extent mappings, leases
//! and disks.

use crate::collections::{
    byte_views, copy_byte_strings, copy_items, group_map_values, lists_keys, sorted_ids,
};
use crate::ids::{DiskId, EpochId, ExtentId, NodeId, OperationId, SessionId, VolumeId};
use crate::name_map::NameMap;
use crate::raft::model::{
    assigned, commit_fault_given, ClusterDisk, MappingModel, MetadataModel, NodeModel, VolumeMetadata,
};
use crate::raft::laws::{
    apply_keeps_tables, apply_keeps_wf, batch_version, consensus_numbers_are_consecutive,
    lemma_batch_fails_early, lemma_batch_prefix_ok, lemma_batch_state,
};
use crate::raft::request::{BlockRange, ExtentMappingEntry, MetadataRequest};
use crate::raft::response::{Answer, MetadataResponse};
use crate::raft::typ::{LogId, StoredMembership, StoredMembershipModel};
use crate::text::{decimal_text, join2, join3, join4};
use crate::types::{LeaseRequest, LeaseResponse, LeaseVersion, ProtectionPolicy, VolumeLease};
use std::collections::BTreeMap;
use vstd::prelude::*;
use vstd::std_specs::iter::IteratorSpec;

verus! {

broadcast use {group_map_values, vstd::std_specs::btree::group_btree_axioms};

/// A committed extent mapping.
#[derive(Clone, Debug)]
pub struct ExtentMapping {
    pub extent_id: ExtentId,
    pub extent_version: u64,
    pub epoch: EpochId,
    pub block_range: BlockRange,
    pub replica_locations: Vec<NodeId>,
    pub checksums: Vec<Vec<u8>>,
    pub operation_id: Option<OperationId>,
}

impl View for ExtentMapping {
    type V = MappingModel;

    open spec fn view(&self) -> MappingModel {
        MappingModel {
            extent_id: self.extent_id,
            extent_version: self.extent_version,
            epoch: self.epoch,
            block_range: self.block_range,
            replica_locations: self.replica_locations@,
            checksums: byte_views(self.checksums@),
            operation_id: self.operation_id,
        }
    }
}

/// Node membership record in the cluster.
#[derive(Clone, Debug)]
pub struct ClusterNode {
    pub node_id: NodeId,
    pub addr: String,
}

impl View for ClusterNode {
    type V = NodeModel;

    open spec fn view(&self) -> NodeModel {
        NodeModel { node_id: self.node_id, addr: self.addr@ }
    }
}

/// The mappings of one volume.
pub open spec fn volume_mappings_view(m: Map<u64, ExtentMapping>) -> Map<u64, MappingModel> {
    m.map_values(|e: ExtentMapping| e@)
}

/// The mappings of all volumes.
pub open spec fn mappings_view(m: Map<u128, BTreeMap<u64, ExtentMapping>>) -> Map<
    u128,
    Map<u64, MappingModel>,
> {
    m.map_values(|b: BTreeMap<u64, ExtentMapping>| volume_mappings_view(b@))
}

/// The nodes of the cluster.
pub open spec fn nodes_view(m: Map<u128, ClusterNode>) -> Map<u128, NodeModel> {
    m.map_values(|n: ClusterNode| n@)
}

/// The lists of nodes of the placement map.
pub open spec fn placement_view(m: Map<Seq<char>, Vec<NodeId>>) -> Map<Seq<char>, Seq<NodeId>> {
    m.map_values(|v: Vec<NodeId>| v@)
}

/// Why a mapping cannot be committed, if it cannot.
fn commit_refusal(
    volume_known: bool,
    current: EpochId,
    found: Option<u64>,
    volume_id: VolumeId,
    start: u64,
    epoch: EpochId,
    previous_version: Option<u64>,
) -> (r: Option<String>)
    ensures
        match r {
            Some(msg) => commit_fault_given(
                volume_known,
                current,
                found,
                volume_id,
                start,
                epoch,
                previous_version,
            ) == Some(msg@),
            None => commit_fault_given(
                volume_known,
                current,
                found,
                volume_id,
                start,
                epoch,
                previous_version,
            ) is None,
        },
{
    if !volume_known {
        return Some(join3("volume ", volume_id.to_text().as_str(), " not found"));
    }
    if epoch != current {
        return Some(
            join4(
                "stale epoch: request has ",
                decimal_text(epoch.as_u64()).as_str(),
                ", current is ",
                decimal_text(current.as_u64()).as_str(),
            ),
        );
    }
    match (previous_version, found) {
        (Some(expected), Some(version)) => {
            if version != expected {
                return Some(
                    join4(
                        "CAS failure: expected version ",
                        decimal_text(expected).as_str(),
                        ", found ",
                        decimal_text(version).as_str(),
                    ),
                );
            }
        },
        (Some(expected), None) => {
            if expected != 0 {
                return Some(
                    join4(
                        "CAS failure: no existing mapping at block ",
                        decimal_text(start).as_str(),
                        ", expected version ",
                        decimal_text(expected).as_str(),
                    ),
                );
            }
        },
        (None, _) => {},
    }
    None
}

/// The full metadata state machine state: the data replicated via Raft.
///
/// Records are keyed by the value of their identifier.
#[derive(Clone, Debug)]
pub struct MetadataStateMachineData {
    pub last_applied: Option<LogId>,
    pub last_membership: StoredMembership,
    /// Current placement epoch, monotonically increasing.
    pub epoch: EpochId,
    /// Cluster node membership (application-level, not Raft membership).
    pub nodes: BTreeMap<u128, ClusterNode>,
    pub volumes: BTreeMap<u128, VolumeMetadata>,
    /// Extent mappings by volume, then by block range start.
    pub extent_mappings: BTreeMap<u128, BTreeMap<u64, ExtentMapping>>,
    /// Volume and block range start by operation.
    pub operation_index: BTreeMap<u128, (u128, u64)>,
    /// Volume and block range start by extent version.
    pub extent_version_index: BTreeMap<u64, (u128, u64)>,
    /// Placement map: arbitrary key to ordered list of nodes.
    pub placement_map: NameMap<Vec<NodeId>>,
    /// Volume write leases by volume.
    pub leases: BTreeMap<u128, VolumeLease>,
    /// Global monotonically increasing lease version counter.
    pub lease_version_counter: LeaseVersion,
    /// Counter for assigning sequential raft node numbers.
    pub raft_id_counter: u64,
    /// The raft node number of each registered node.
    pub node_raft_map: BTreeMap<u128, u64>,
    /// Registered disks.
    pub disks: BTreeMap<u128, ClusterDisk>,
}

impl View for MetadataStateMachineData {
    type V = MetadataModel;

    open spec fn view(&self) -> MetadataModel {
        MetadataModel {
            epoch: self.epoch,
            nodes: nodes_view(self.nodes@),
            volumes: self.volumes@,
            mappings: mappings_view(self.extent_mappings@),
            operation_index: self.operation_index@,
            version_index: self.extent_version_index@,
            placement: placement_view(self.placement_map@),
            leases: self.leases@,
            lease_version_counter: self.lease_version_counter,
            raft_id_counter: self.raft_id_counter,
            raft_ids: self.node_raft_map@,
            disks: self.disks@,
        }
    }
}

impl Default for MetadataStateMachineData {
    fn default() -> (r: Self)
        ensures
            r@ == MetadataModel::initial(),
            r.last_applied is None,
            r.last_membership@ == StoredMembershipModel::none(),
    {
        MetadataStateMachineData {
            last_applied: None,
            last_membership: StoredMembership::default(),
            epoch: EpochId::new(0),
            nodes: BTreeMap::new(),
            volumes: BTreeMap::new(),
            extent_mappings: BTreeMap::new(),
            operation_index: BTreeMap::new(),
            extent_version_index: BTreeMap::new(),
            placement_map: NameMap::new(),
            leases: BTreeMap::new(),
            lease_version_counter: 0,
            raft_id_counter: 0,
            node_raft_map: BTreeMap::new(),
            disks: BTreeMap::new(),
        }
    }
}

impl MetadataStateMachineData {
    /// Whether two states agree on what consensus keeps beside the metadata.
    pub open spec fn same_log_state(&self, other: &Self) -> bool {
        self.last_applied == other.last_applied && self.last_membership == other.last_membership
    }

    /// The state of a new cluster.
    pub fn new() -> (r: Self)
        ensures
            r@ == MetadataModel::initial(),
            r.last_applied is None,
            r.last_membership@ == StoredMembershipModel::none(),
    {
        Self::default()
    }

    fn put_node(&mut self, node_id: NodeId, addr: &String)
        ensures
            final(self)@ == old(self)@.with_node(node_id, addr@),
            final(self).same_log_state(old(self)),
    {
        self.nodes.insert(node_id.value, ClusterNode { node_id, addr: addr.clone() });
    }

    fn remove_node(&mut self, node_id: NodeId) -> (r: MetadataResponse)
        ensures
            (final(self)@, r@) == old(self)@.apply(MetadataRequest::RemoveNode { node_id }),
            final(self).same_log_state(old(self)),
    {
        match self.nodes.remove(&node_id.value) {
            Some(_) => MetadataResponse::ok(),
            None => {
                assert(self@.nodes =~= old(self)@.nodes);
                MetadataResponse::error(join3("node ", node_id.to_text().as_str(), " not found"))
            },
        }
    }

    fn create_volume(
        &mut self,
        volume_id: VolumeId,
        size_bytes: u64,
        protection: ProtectionPolicy,
    ) -> (r: MetadataResponse)
        ensures
            (final(self)@, r@) == old(self)@.apply(
                MetadataRequest::CreateVolume { volume_id, size_bytes, protection },
            ),
            final(self).same_log_state(old(self)),
    {
        if self.volumes.contains_key(&volume_id.value) {
            return MetadataResponse::error(
                join3("volume ", volume_id.to_text().as_str(), " already exists"),
            );
        }
        match protection.validate() {
            Err(e) => {
                return MetadataResponse::error(join2("invalid protection policy: ", e.as_str()));
            },
            Ok(_) => {},
        }
        let created_at_epoch = self.epoch;
        self.volumes.insert(
            volume_id.value,
            VolumeMetadata { volume_id, size_bytes, protection, created_at_epoch },
        );
        let table: BTreeMap<u64, ExtentMapping> = BTreeMap::new();
        self.extent_mappings.insert(volume_id.value, table);
        MetadataResponse::ok()
    }

    /// Takes out of the indexes what the mappings of a deleted volume have there.
    fn forget_mappings(&mut self, mappings: &BTreeMap<u64, ExtentMapping>)
        ensures
            final(self).operation_index@ == old(self).operation_index@.remove_keys(
                Set::new(
                    |op: u128|
                        exists|s: u64| #[trigger]
                            mappings@.contains_key(s) && mappings@[s].operation_id == Some(
                                OperationId { value: op },
                            ),
                ),
            ),
            final(self).extent_version_index@ == old(self).extent_version_index@.remove_keys(
                Set::new(
                    |ver: u64|
                        exists|s: u64| #[trigger]
                            mappings@.contains_key(s) && mappings@[s].extent_version == ver,
                ),
            ),
            final(self)@ == (MetadataModel {
                operation_index: final(self)@.operation_index,
                version_index: final(self)@.version_index,
                ..old(self)@
            }),
            final(self).same_log_state(old(self)),
    {
        for pair in it: mappings.iter()
            invariant
                it.seq() == mappings.iter().remaining(),
                self.operation_index@ == old(self).operation_index@.remove_keys(
                    Set::new(
                        |op: u128|
                            exists|i: int|
                                0 <= i < it.index() && (#[trigger] it.seq()[i]).1.operation_id
                                    == Some(OperationId { value: op }),
                    ),
                ),
                self.extent_version_index@ == old(self).extent_version_index@.remove_keys(
                    Set::new(
                        |ver: u64|
                            exists|i: int|
                                0 <= i < it.index() && (#[trigger] it.seq()[i]).1.extent_version
                                    == ver,
                    ),
                ),
                self@ == (MetadataModel {
                    operation_index: self@.operation_index,
                    version_index: self@.version_index,
                    ..old(self)@
                }),
                self.same_log_state(old(self)),
        {
            let mapping = pair.1;
            match mapping.operation_id {
                Some(op_id) => {
                    self.operation_index.remove(&op_id.value);
                },
                None => {},
            }
            self.extent_version_index.remove(&mapping.extent_version);
            proof {
                let i = it.index();
                assert(it.seq()[i] == pair);
                let ops = Set::new(
                    |op: u128|
                        exists|j: int|
                            0 <= j < i + 1 && (#[trigger] it.seq()[j]).1.operation_id == Some(
                                OperationId { value: op },
                            ),
                );
                assert(self.operation_index@ =~= old(self).operation_index@.remove_keys(ops));
                let vers = Set::new(
                    |ver: u64|
                        exists|j: int|
                            0 <= j < i + 1 && (#[trigger] it.seq()[j]).1.extent_version == ver,
                );
                assert(self.extent_version_index@
                    =~= old(self).extent_version_index@.remove_keys(vers));
            }
        }
        proof {
            let seq = mappings.iter().remaining();
            assert forall|s: u64| #[trigger] mappings@.contains_key(s) implies exists|j: int|
                0 <= j < seq.len() && *(#[trigger] seq[j]).1 == mappings@[s] by {
                assert(seq.contains((&s, &mappings@[s])));
                let j = choose|j: int| 0 <= j < seq.len() && seq[j] == (&s, &mappings@[s]);
                assert(*seq[j].1 == mappings@[s]);
            }
            assert forall|j: int| 0 <= j < seq.len() implies mappings@.contains_key(
                *(#[trigger] seq[j]).0,
            ) && mappings@[*seq[j].0] == *seq[j].1 by {}
            let ops = Set::new(
                |op: u128|
                    exists|s: u64| #[trigger]
                        mappings@.contains_key(s) && mappings@[s].operation_id == Some(
                            OperationId { value: op },
                        ),
            );
            assert(self.operation_index@ =~= old(self).operation_index@.remove_keys(ops));
            let vers = Set::new(
                |ver: u64|
                    exists|s: u64| #[trigger]
                        mappings@.contains_key(s) && mappings@[s].extent_version == ver,
            );
            assert(self.extent_version_index@ =~= old(self).extent_version_index@.remove_keys(vers));
        }
    }

    fn delete_volume(&mut self, volume_id: VolumeId) -> (r: MetadataResponse)
        ensures
            (final(self)@, r@) == old(self)@.apply(MetadataRequest::DeleteVolume { volume_id }),
            final(self).same_log_state(old(self)),
    {
        let ghost before = self@;
        let v = volume_id.value;
        if self.volumes.remove(&v).is_none() {
            assert(self@.volumes =~= before.volumes);
            return MetadataResponse::error(
                join3("volume ", volume_id.to_text().as_str(), " not found"),
            );
        }
        match self.extent_mappings.remove(&v) {
            Some(mappings) => {
                self.forget_mappings(&mappings);
                proof {
                    assert forall|s: u64| before.has_mapping(v, s) <==> #[trigger]
                        mappings@.contains_key(s) by {}
                    assert forall|s: u64| before.has_mapping(
                        v,
                        s,
                    ) implies #[trigger] before.mappings[v][s] == mappings@[s]@ by {}
                    let ops = Set::new(
                        |op: u128|
                            exists|s: u64| #[trigger]
                                mappings@.contains_key(s) && mappings@[s].operation_id == Some(
                                    OperationId { value: op },
                                ),
                    );
                    assert forall|op: u128| #[trigger] ops.contains(op) <==> before.operations_of(
                        v,
                    ).contains(op) by {
                        if ops.contains(op) {
                            let s = choose|s: u64| #[trigger]
                                mappings@.contains_key(s) && mappings@[s].operation_id == Some(
                                    OperationId { value: op },
                                );
                            assert(before.has_mapping(v, s));
                            assert(before.mappings[v][s] == mappings@[s]@);
                        }
                        if before.operations_of(v).contains(op) {
                            let s = choose|s: u64| #[trigger]
                                before.has_mapping(v, s) && before.mappings[v][s].operation_id
                                    == Some(OperationId { value: op });
                            assert(mappings@.contains_key(s));
                            assert(before.mappings[v][s] == mappings@[s]@);
                        }
                    }
                    assert(ops =~= before.operations_of(v));
                    let vers = Set::new(
                        |ver: u64|
                            exists|s: u64| #[trigger]
                                mappings@.contains_key(s) && mappings@[s].extent_version == ver,
                    );
                    assert forall|ver: u64| #[trigger] vers.contains(ver) <==> before.versions_of(
                        v,
                    ).contains(ver) by {
                        if vers.contains(ver) {
                            let s = choose|s: u64| #[trigger]
                                mappings@.contains_key(s) && mappings@[s].extent_version == ver;
                            assert(before.has_mapping(v, s));
                            assert(before.mappings[v][s] == mappings@[s]@);
                        }
                        if before.versions_of(v).contains(ver) {
                            let s = choose|s: u64| #[trigger]
                                before.has_mapping(v, s) && before.mappings[v][s].extent_version
                                    == ver;
                            assert(mappings@.contains_key(s));
                            assert(before.mappings[v][s] == mappings@[s]@);
                        }
                    }
                    assert(vers =~= before.versions_of(v));
                }
            },
            None => {
                assert(self@.mappings =~= before.mappings.remove(v));
                assert(self@.operation_index =~= before.operation_index.remove_keys(
                    before.operations_of(v),
                ));
                assert(self@.version_index =~= before.version_index.remove_keys(
                    before.versions_of(v),
                ));
            },
        }
        self.leases.remove(&v);
        MetadataResponse::ok()
    }

    /// The extent version of the mapping that starts at a block, if there is one.
    fn current_version(&self, volume_id: VolumeId, start: u64) -> (r: Option<u64>)
        ensures
            r == self@.version_at(volume_id.value, start),
    {
        match self.extent_mappings.get(&volume_id.value) {
            Some(table) => match table.get(&start) {
                Some(existing) => Some(existing.extent_version),
                None => None,
            },
            None => None,
        }
    }

    /// Commits a mapping that can be committed.
    fn store_mapping(&mut self, volume_id: VolumeId, mapping: ExtentMapping)
        requires
            old(self)@.mappings.contains_key(volume_id.value),
        ensures
            final(self)@ == old(self)@.commit(volume_id, mapping@),
            final(self).same_log_state(old(self)),
    {
        let ghost before = self@;
        let v = volume_id.value;
        let start = mapping.block_range.start;
        assert(before.mappings.contains_key(v));
        let mut table: BTreeMap<u64, ExtentMapping> = match self.extent_mappings.remove(&v) {
            Some(table) => table,
            None => {
                assert(false);
                BTreeMap::new()
            },
        };
        assert(volume_mappings_view(table@) == before.mappings[v]);
        assert(before.has_mapping(v, start) == table@.contains_key(start));
        match table.get(&start) {
            Some(existing) => {
                assert(before.mappings[v][start] == existing@);
                match existing.operation_id {
                    Some(op_id) => {
                        self.operation_index.remove(&op_id.value);
                    },
                    None => {},
                }
                self.extent_version_index.remove(&existing.extent_version);
            },
            None => {},
        }
        match mapping.operation_id {
            Some(op_id) => {
                self.operation_index.insert(op_id.value, (v, start));
            },
            None => {},
        }
        self.extent_version_index.insert(mapping.extent_version, (v, start));
        table.insert(start, mapping);
        self.extent_mappings.insert(v, table);
        assert(self@.mappings =~= before.mappings.insert(
            v,
            before.mappings[v].insert(start, mapping@),
        ));
    }

    /// The extent version that a block has after the first entries of a batch.
    fn version_in_batch(
        &self,
        entries: &Vec<ExtentMappingEntry>,
        count: usize,
        volume_id: VolumeId,
        start: u64,
    ) -> (r: Option<u64>)
        requires
            count <= entries@.len(),
        ensures
            r == batch_version(self@, entries@.take(count as int), volume_id.value, start),
        decreases count,
    {
        if count == 0 {
            return self.current_version(volume_id, start);
        }
        let last = &entries[count - 1];
        assert(entries@.take(count as int).drop_last() =~= entries@.take(count - 1));
        if last.volume_id == volume_id && last.block_range.start == start {
            Some(last.extent_version)
        } else {
            self.version_in_batch(entries, count - 1, volume_id, start)
        }
    }

    /// Why a batch cannot be committed, if it cannot.
    fn batch_refusal(&self, entries: &Vec<ExtentMappingEntry>) -> (r: Option<String>)
        requires
            self@.has_tables(),
        ensures
            match r {
                Some(msg) => self@.commit_batch(entries@) == Err::<MetadataModel, Seq<char>>(msg@),
                None => self@.commit_batch(entries@) is Ok,
            },
    {
        let mut i: usize = 0;
        while i < entries.len()
            invariant
                i <= entries@.len(),
                self@.has_tables(),
                self@.commit_batch(entries@.take(i as int)) is Ok,
            decreases entries@.len() - i,
        {
            let e = &entries[i];
            let found = self.version_in_batch(entries, i, e.volume_id, e.block_range.start);
            let refusal = commit_refusal(
                self.volumes.contains_key(&e.volume_id.value),
                self.epoch,
                found,
                e.volume_id,
                e.block_range.start,
                e.epoch,
                e.previous_version,
            );
            proof {
                lemma_batch_state(self@, entries@.take(i as int));
                assert(entries@.take(i + 1).drop_last() =~= entries@.take(i as int));
            }
            match refusal {
                Some(msg) => {
                    proof {
                        lemma_batch_fails_early(self@, entries@, i + 1);
                    }
                    return Some(msg);
                },
                None => {},
            }
            i = i + 1;
        }
        assert(entries@.take(entries@.len() as int) =~= entries@);
        None
    }

    fn commit_batch(&mut self, entries: &Vec<ExtentMappingEntry>) -> (r: MetadataResponse)
        requires
            old(self)@.has_tables(),
        ensures
            final(self)@ == (match old(self)@.commit_batch(entries@) {
                Ok(m) => m,
                Err(_) => old(self)@,
            }),
            r@ == (match old(self)@.commit_batch(entries@) {
                Ok(_) => Answer::Epoch(old(self)@.epoch),
                Err(fault) => Answer::Error(fault),
            }),
            final(self).same_log_state(old(self)),
    {
        match self.batch_refusal(entries) {
            Some(msg) => {
                return MetadataResponse::error(msg);
            },
            None => {},
        }
        let ghost before = self@;
        let mut i: usize = 0;
        while i < entries.len()
            invariant
                i <= entries@.len(),
                before.has_tables(),
                before.commit_batch(entries@) is Ok,
                before.commit_batch(entries@.take(i as int)) == Ok::<MetadataModel, Seq<char>>(
                    self@,
                ),
                self.same_log_state(old(self)),
            decreases entries@.len() - i,
        {
            let e = &entries[i];
            proof {
                assert(entries@.take(i + 1).drop_last() =~= entries@.take(i as int));
                lemma_batch_prefix_ok(before, entries@, i + 1);
                lemma_batch_state(before, entries@.take(i as int));
                assert(before.volumes.contains_key(e.volume_id.value));
                assert(before.mappings.dom().contains(e.volume_id.value));
            }
            self.store_mapping(
                e.volume_id,
                ExtentMapping {
                    extent_id: e.extent_id,
                    extent_version: e.extent_version,
                    epoch: e.epoch,
                    block_range: e.block_range,
                    replica_locations: copy_items(&e.replica_locations),
                    checksums: copy_byte_strings(&e.checksums),
                    operation_id: e.operation_id,
                },
            );
            i = i + 1;
        }
        proof {
            assert(entries@.take(entries@.len() as int) =~= entries@);
            lemma_batch_state(before, entries@);
        }
        MetadataResponse::epoch(self.epoch)
    }

    fn update_placement_map(&mut self, assignments: &Vec<(String, Vec<NodeId>)>)
        ensures
            final(self)@ == (MetadataModel {
                placement: assigned(old(self)@.placement, assignments@),
                ..old(self)@
            }),
            final(self).same_log_state(old(self)),
    {
        assert(assignments@.take(0) =~= Seq::empty());
        let mut i: usize = 0;
        while i < assignments.len()
            invariant
                i <= assignments@.len(),
                self@ == (MetadataModel {
                    placement: assigned(old(self)@.placement, assignments@.take(i as int)),
                    ..old(self)@
                }),
                self.same_log_state(old(self)),
            decreases assignments@.len() - i,
        {
            let nodes = copy_items(&assignments[i].1);
            self.placement_map.insert(assignments[i].0.clone(), nodes);
            i = i + 1;
            assert(assignments@.take(i as int).drop_last() =~= assignments@.take(i - 1));
        }
        assert(assignments@.take(assignments@.len() as int) =~= assignments@);
    }

    /// Applies a lease request.
    fn apply_lease_request(&mut self, req: &LeaseRequest) -> (r: LeaseResponse)
        requires
            old(self)@.lease_fits(*req),
        ensures
            (final(self)@, r@) == old(self)@.apply_lease(*req),
            final(self).same_log_state(old(self)),
    {
        match *req {
            LeaseRequest::Acquire { volume_id, session_id, now_ms, ttl_ms } => {
                let v = volume_id.value;
                if !self.volumes.contains_key(&v) {
                    return LeaseResponse::Denied {
                        reason: join3("volume ", volume_id.to_text().as_str(), " not found"),
                    };
                }
                match self.leases.get(&v) {
                    Some(existing) => {
                        if !existing.is_expired(now_ms) && !existing.is_held_by(session_id) {
                            return LeaseResponse::Denied {
                                reason: join4(
                                    "volume ",
                                    volume_id.to_text().as_str(),
                                    " lease held by session ",
                                    existing.holder.to_text().as_str(),
                                ),
                            };
                        }
                    },
                    None => {},
                }
                self.lease_version_counter = self.lease_version_counter + 1;
                let lease_version = self.lease_version_counter;
                let expires_at_ms = now_ms + ttl_ms;
                self.leases.insert(
                    v,
                    VolumeLease {
                        volume_id,
                        holder: session_id,
                        granted_at_ms: now_ms,
                        expires_at_ms,
                        lease_version,
                    },
                );
                LeaseResponse::Granted { lease_version, expires_at_ms }
            },
            LeaseRequest::Renew { volume_id, session_id, now_ms, ttl_ms } => {
                let v = volume_id.value;
                let existing: VolumeLease = match self.leases.get(&v) {
                    Some(lease) => *lease,
                    None => {
                        return LeaseResponse::Denied {
                            reason: join2(
                                "no lease exists for volume ",
                                volume_id.to_text().as_str(),
                            ),
                        };
                    },
                };
                if !existing.is_held_by(session_id) {
                    return LeaseResponse::Denied {
                        reason: join4(
                            "lease for volume ",
                            volume_id.to_text().as_str(),
                            " held by different session ",
                            existing.holder.to_text().as_str(),
                        ),
                    };
                }
                if existing.is_expired(now_ms) {
                    return LeaseResponse::Denied {
                        reason: join3(
                            "lease for volume ",
                            volume_id.to_text().as_str(),
                            " has expired, must re-acquire",
                        ),
                    };
                }
                self.lease_version_counter = self.lease_version_counter + 1;
                let lease_version = self.lease_version_counter;
                let expires_at_ms = now_ms + ttl_ms;
                self.leases.insert(
                    v,
                    VolumeLease {
                        volume_id: existing.volume_id,
                        holder: existing.holder,
                        granted_at_ms: existing.granted_at_ms,
                        expires_at_ms,
                        lease_version,
                    },
                );
                LeaseResponse::Renewed { lease_version, expires_at_ms }
            },
            LeaseRequest::Release { volume_id, session_id } => {
                let v = volume_id.value;
                let held: Option<bool> = match self.leases.get(&v) {
                    Some(existing) => Some(existing.is_held_by(session_id)),
                    None => None,
                };
                match held {
                    Some(true) => {
                        self.leases.remove(&v);
                        LeaseResponse::Released
                    },
                    Some(false) => LeaseResponse::Denied {
                        reason: join3(
                            "cannot release lease for volume ",
                            volume_id.to_text().as_str(),
                            ": held by different session",
                        ),
                    },
                    None => LeaseResponse::Released,
                }
            },
        }
    }

    fn register_node(&mut self, node_id: NodeId, addr: &String) -> (r: MetadataResponse)
        requires
            old(self)@.raft_ids.contains_key(node_id.value) || old(self)@.raft_id_counter
                < u64::MAX,
        ensures
            (final(self)@, r@) == old(self)@.apply(
                MetadataRequest::RegisterNode { node_id, addr: *addr },
            ),
            final(self).same_log_state(old(self)),
    {
        let known: Option<u64> = match self.node_raft_map.get(&node_id.value) {
            Some(raft_id) => Some(*raft_id),
            None => None,
        };
        match known {
            Some(raft_id) => {
                self.put_node(node_id, addr);
                MetadataResponse::NodeRegistered(raft_id)
            },
            None => {
                self.raft_id_counter = self.raft_id_counter + 1;
                let raft_id = self.raft_id_counter;
                self.node_raft_map.insert(node_id.value, raft_id);
                self.put_node(node_id, addr);
                MetadataResponse::NodeRegistered(raft_id)
            },
        }
    }

    fn register_disk(&mut self, disk_id: DiskId, node_id: NodeId, capacity_bytes: u64) -> (r:
        MetadataResponse)
        ensures
            (final(self)@, r@) == old(self)@.apply(
                MetadataRequest::RegisterDisk { disk_id, node_id, capacity_bytes },
            ),
            final(self).same_log_state(old(self)),
    {
        let used_bytes: u64 = match self.disks.get(&disk_id.value) {
            Some(disk) => disk.used_bytes,
            None => 0,
        };
        self.disks.insert(
            disk_id.value,
            ClusterDisk { disk_id, node_id, capacity_bytes, used_bytes },
        );
        MetadataResponse::DiskRegistered
    }

    fn update_disk_usage(&mut self, disk_id: DiskId, used_bytes: u64) -> (r: MetadataResponse)
        ensures
            (final(self)@, r@) == old(self)@.apply(
                MetadataRequest::UpdateDiskUsage { disk_id, used_bytes },
            ),
            final(self).same_log_state(old(self)),
    {
        let known: Option<ClusterDisk> = match self.disks.get(&disk_id.value) {
            Some(disk) => Some(*disk),
            None => None,
        };
        match known {
            Some(disk) => {
                self.disks.insert(
                    disk_id.value,
                    ClusterDisk {
                        disk_id: disk.disk_id,
                        node_id: disk.node_id,
                        capacity_bytes: disk.capacity_bytes,
                        used_bytes,
                    },
                );
                MetadataResponse::ok()
            },
            None => MetadataResponse::error(
                join3("disk ", disk_id.to_text().as_str(), " not found"),
            ),
        }
    }

    fn deregister_disk(&mut self, disk_id: DiskId) -> (r: MetadataResponse)
        ensures
            (final(self)@, r@) == old(self)@.apply(MetadataRequest::DeregisterDisk { disk_id }),
            final(self).same_log_state(old(self)),
    {
        match self.disks.remove(&disk_id.value) {
            Some(_) => MetadataResponse::ok(),
            None => {
                assert(self@.disks =~= old(self)@.disks);
                MetadataResponse::error(join3("disk ", disk_id.to_text().as_str(), " not found"))
            },
        }
    }

    fn cleanup_expired_leases(&mut self, now_ms: u64) -> (r: MetadataResponse)
        ensures
            (final(self)@, r@) == old(self)@.apply(
                MetadataRequest::CleanupExpiredLeases { now_ms },
            ),
            final(self).same_log_state(old(self)),
    {
        let ghost before = self.leases@;
        let ghost expired = Set::new(
            |v: u128| before.contains_key(v) && before[v].expired_at(now_ms),
        );
        let mut doomed: Vec<u128> = Vec::new();
        for pair in it: self.leases.iter()
            invariant
                it.seq() == self.leases.iter().remaining(),
                self.leases@ == before,
                self@ == old(self)@,
                self.same_log_state(old(self)),
                expired == Set::new(
                    |v: u128| before.contains_key(v) && before[v].expired_at(now_ms),
                ),
                forall|j: int| 0 <= j < doomed@.len() ==> expired.contains(#[trigger] doomed@[j]),
                forall|i: int|
                    0 <= i < it.index() && (#[trigger] it.seq()[i]).1.expired_at(now_ms)
                        ==> doomed@.contains(*it.seq()[i].0),
        {
            let ghost had = doomed@;
            assert(it.seq()[it.index()] == pair);
            if pair.1.is_expired(now_ms) {
                doomed.push(*pair.0);
                assert(doomed@[had.len() as int] == *pair.0);
                assert forall|v: u128| had.contains(v) implies doomed@.contains(v) by {
                    let j = choose|j: int| 0 <= j < had.len() && had[j] == v;
                    assert(doomed@[j] == v);
                }
            }
        }
        proof {
            let seq = self.leases.iter().remaining();
            assert forall|v: u128| #[trigger] expired.contains(v) implies doomed@.contains(v) by {
                assert(seq.contains((&v, &before[v])));
                let j = choose|j: int| 0 <= j < seq.len() && seq[j] == (&v, &before[v]);
                assert(seq[j].1.expired_at(now_ms));
            }
        }
        let mut i: usize = 0;
        while i < doomed.len()
            invariant
                i <= doomed@.len(),
                self.leases@ == before.remove_keys(doomed@.take(i as int).to_set()),
                self@ == (MetadataModel { leases: self@.leases, ..old(self)@ }),
                self.same_log_state(old(self)),
            decreases doomed@.len() - i,
        {
            self.leases.remove(&doomed[i]);
            i = i + 1;
            proof {
                let now = doomed@.take(i as int);
                let then = doomed@.take(i - 1);
                assert(now =~= then.push(doomed@[i - 1]));
                assert forall|v: u128| #[trigger] now.to_set().contains(v) <==> then.to_set().contains(
                    v,
                ) || v == doomed@[i - 1] by {
                    if then.contains(v) {
                        let j = choose|j: int| 0 <= j < then.len() && then[j] == v;
                        assert(now[j] == v);
                    }
                    assert(now[i - 1] == doomed@[i - 1]);
                    if now.contains(v) && v != doomed@[i - 1] {
                        let j = choose|j: int| 0 <= j < now.len() && now[j] == v;
                        assert(then[j] == v);
                    }
                }
                assert(self.leases@ =~= before.remove_keys(now.to_set()));
            }
        }
        proof {
            assert(doomed@.take(doomed@.len() as int) =~= doomed@);
            assert(doomed@.to_set() =~= expired);
        }
        MetadataResponse::ok()
    }

    /// Apply a metadata request to the state machine, returning a response.
    ///
    /// This is the core state transition function.
    pub fn apply_request(&mut self, req: &MetadataRequest) -> (r: MetadataResponse)
        requires
            old(self)@.has_tables(),
            old(self)@.fits(*req),
        ensures
            (final(self)@, r@) == old(self)@.apply(*req),
            final(self)@.has_tables(),
            old(self)@.wf() ==> final(self)@.wf(),
            final(self).same_log_state(old(self)),
            final(self).last_applied == old(self).last_applied,
            final(self).last_membership == old(self).last_membership,
    {
        proof {
            apply_keeps_tables(self@, *req);
            if self@.wf() {
                apply_keeps_wf(self@, *req);
            }
        }
        match req {
            MetadataRequest::AddNode { node_id, addr } => {
                self.put_node(*node_id, addr);
                MetadataResponse::ok()
            },
            MetadataRequest::RemoveNode { node_id } => self.remove_node(*node_id),
            MetadataRequest::CreateVolume { volume_id, size_bytes, protection } => {
                self.create_volume(*volume_id, *size_bytes, *protection)
            },
            MetadataRequest::DeleteVolume { volume_id } => self.delete_volume(*volume_id),
            MetadataRequest::AdvanceEpoch => {
                let next: u64 = if self.epoch.as_u64() < u64::MAX {
                    self.epoch.as_u64() + 1
                } else {
                    u64::MAX
                };
                self.epoch = EpochId::new(next);
                MetadataResponse::epoch(self.epoch)
            },
            MetadataRequest::CommitExtentMapping {
                volume_id,
                block_range,
                extent_id,
                extent_version,
                epoch,
                replica_locations,
                checksums,
                operation_id,
                previous_version,
            } => {
                let refusal = commit_refusal(
                    self.volumes.contains_key(&volume_id.value),
                    self.epoch,
                    self.current_version(*volume_id, block_range.start),
                    *volume_id,
                    block_range.start,
                    *epoch,
                    *previous_version,
                );
                match refusal {
                    Some(msg) => MetadataResponse::error(msg),
                    None => {
                        self.store_mapping(
                            *volume_id,
                            ExtentMapping {
                                extent_id: *extent_id,
                                extent_version: *extent_version,
                                epoch: *epoch,
                                block_range: *block_range,
                                replica_locations: copy_items(replica_locations),
                                checksums: copy_byte_strings(checksums),
                                operation_id: *operation_id,
                            },
                        );
                        MetadataResponse::epoch(self.epoch)
                    },
                }
            },
            MetadataRequest::CommitExtentMappingBatch { mappings } => self.commit_batch(mappings),
            MetadataRequest::UpdatePlacementMap { assignments } => {
                self.update_placement_map(assignments);
                MetadataResponse::ok()
            },
            MetadataRequest::Lease(lease_req) => MetadataResponse::Lease(
                self.apply_lease_request(lease_req),
            ),
            MetadataRequest::RegisterNode { node_id, addr } => self.register_node(*node_id, addr),
            MetadataRequest::RegisterDisk { disk_id, node_id, capacity_bytes } => {
                self.register_disk(*disk_id, *node_id, *capacity_bytes)
            },
            MetadataRequest::UpdateDiskUsage { disk_id, used_bytes } => {
                self.update_disk_usage(*disk_id, *used_bytes)
            },
            MetadataRequest::DeregisterDisk { disk_id } => self.deregister_disk(*disk_id),
            MetadataRequest::CleanupExpiredLeases { now_ms } => self.cleanup_expired_leases(
                *now_ms,
            ),
        }
    }

    /// Whether every volume has a table of mappings, as it has in every state that
    /// requests lead to from that of a new cluster.
    pub fn has_tables(&self) -> (r: bool)
        ensures
            r == self@.has_tables(),
    {
        let keys = sorted_ids(&self.volumes);
        let mut i: usize = 0;
        while i < keys.len()
            invariant
                i <= keys@.len(),
                forall|k: u128| #[trigger] self.volumes@.contains_key(k) <==> keys@.contains(k),
                forall|j: int|
                    0 <= j < i ==> self.extent_mappings@.contains_key(#[trigger] keys@[j]),
            decreases keys@.len() - i,
        {
            if !self.extent_mappings.contains_key(&keys[i]) {
                assert(keys@.contains(keys@[i as int]));
                assert(self@.volumes.contains_key(keys@[i as int]));
                assert(!self@.mappings.contains_key(keys@[i as int]));
                return false;
            }
            i = i + 1;
        }
        assert forall|v: u128| #[trigger] self@.volumes.contains_key(v) implies self@.mappings.contains_key(
            v,
        ) by {
            let j = choose|j: int| 0 <= j < keys@.len() && keys@[j] == v;
            assert(self.extent_mappings@.contains_key(keys@[j]));
        }
        true
    }

    /// Whether the numbers that a request makes fit: its application would
    /// otherwise overflow a counter or a point in time.
    pub fn can_apply(&self, req: &MetadataRequest) -> (r: bool)
        ensures
            r == self@.fits(*req),
    {
        match req {
            MetadataRequest::Lease(LeaseRequest::Acquire { volume_id, session_id, now_ms, ttl_ms }) => {
                if !self.volumes.contains_key(&volume_id.value) {
                    return true;
                }
                match self.leases.get(&volume_id.value) {
                    Some(lease) => {
                        if !lease.is_expired(*now_ms) && !lease.is_held_by(*session_id) {
                            return true;
                        }
                    },
                    None => {},
                }
                self.lease_version_counter < u64::MAX && *ttl_ms <= u64::MAX - *now_ms
            },
            MetadataRequest::Lease(LeaseRequest::Renew { volume_id, session_id, now_ms, ttl_ms }) => {
                match self.leases.get(&volume_id.value) {
                    Some(lease) => {
                        if !lease.is_held_by(*session_id) || lease.is_expired(*now_ms) {
                            return true;
                        }
                    },
                    None => {
                        return true;
                    },
                }
                self.lease_version_counter < u64::MAX && *ttl_ms <= u64::MAX - *now_ms
            },
            MetadataRequest::RegisterNode { node_id, .. } => self.node_raft_map.contains_key(
                &node_id.value,
            ) || self.raft_id_counter < u64::MAX,
            _ => true,
        }
    }

    fn mapping_at(&self, place: Option<&(u128, u64)>) -> (r: Option<&ExtentMapping>)
        ensures
            match r {
                Some(m) => place is Some && self@.has_mapping((place->0).0, (place->0).1) && m@
                    == self@.mappings[(place->0).0][(place->0).1],
                None => place is None || !self@.has_mapping((place->0).0, (place->0).1),
            },
    {
        match place {
            Some(place) => match self.extent_mappings.get(&place.0) {
                Some(table) => table.get(&place.1),
                None => None,
            },
            None => None,
        }
    }

    /// Look up an extent mapping by operation ID.
    pub fn lookup_by_operation_id(&self, op_id: &OperationId) -> (r: Option<&ExtentMapping>)
        ensures
            match r {
                Some(m) => self@.lookup_operation(*op_id) == Some(m@),
                None => self@.lookup_operation(*op_id) is None,
            },
            r matches Some(m) ==> self.operation_index@.contains_key(op_id.value) && {
                let (v, s) = self.operation_index@[op_id.value];
                &&& self.extent_mappings@.contains_key(v)
                &&& self.extent_mappings@[v]@.contains_key(s)
                &&& m@ == self.extent_mappings@[v]@[s]@
            },
    {
        self.mapping_at(self.operation_index.get(&op_id.value))
    }

    /// Look up an extent mapping by extent version.
    pub fn lookup_by_extent_version(&self, version: u64) -> (r: Option<&ExtentMapping>)
        ensures
            match r {
                Some(m) => self@.lookup_version(version) == Some(m@),
                None => self@.lookup_version(version) is None,
            },
            r matches Some(m) ==> self.extent_version_index@.contains_key(version) && {
                let (v, s) = self.extent_version_index@[version];
                &&& self.extent_mappings@.contains_key(v)
                &&& self.extent_mappings@[v]@.contains_key(s)
                &&& m@ == self.extent_mappings@[v]@[s]@
            },
    {
        self.mapping_at(self.extent_version_index.get(&version))
    }

    /// Get all extent mappings for a volume.
    pub fn get_volume_mappings(&self, volume_id: &VolumeId) -> (r: Option<
        &BTreeMap<u64, ExtentMapping>,
    >)
        ensures
            match r {
                Some(table) => self@.mappings.contains_key(volume_id.value) && volume_mappings_view(
                    table@,
                ) == self@.mappings[volume_id.value],
                None => !self@.mappings.contains_key(volume_id.value),
            },
            match r {
                Some(table) => self.extent_mappings@.contains_key(volume_id.value) && table@
                    == self.extent_mappings@[volume_id.value]@,
                None => !self.extent_mappings@.contains_key(volume_id.value),
            },
    {
        self.extent_mappings.get(&volume_id.value)
    }

    /// Get volume metadata.
    pub fn get_volume(&self, volume_id: &VolumeId) -> (r: Option<&VolumeMetadata>)
        ensures
            match r {
                Some(v) => self@.volumes.contains_key(volume_id.value) && *v
                    == self@.volumes[volume_id.value],
                None => !self@.volumes.contains_key(volume_id.value),
            },
    {
        self.volumes.get(&volume_id.value)
    }

    /// Get all volumes, in the order of their identifiers.
    pub fn list_volumes(&self) -> (r: Vec<&VolumeMetadata>)
        ensures
            exists|keys: Seq<u128>|
                {
                    &&& #[trigger] lists_keys(keys, self@.volumes.dom())
                    &&& r@.len() == keys.len()
                    &&& forall|i: int|
                        0 <= i < r@.len() ==> (#[trigger] r@[i]) == &self@.volumes[keys[i]]
                },
            r@.len() == self.volumes@.len(),
            forall|v: u128| #[trigger]
                self.volumes@.contains_key(v) ==> exists|i: int|
                    0 <= i < r@.len() && *(#[trigger] r@[i]) == self.volumes@[v],
    {
        let keys = sorted_ids(&self.volumes);
        let mut r: Vec<&VolumeMetadata> = Vec::new();
        let mut i: usize = 0;
        while i < keys.len()
            invariant
                i <= keys@.len(),
                i == r@.len(),
                forall|k: u128| #[trigger] self.volumes@.contains_key(k) <==> keys@.contains(k),
                forall|j: int|
                    0 <= j < i ==> self@.volumes.contains_key(keys@[j]) && *(#[trigger] r@[j])
                        == self@.volumes[keys@[j]],
            decreases keys@.len() - i,
        {
            assert(keys@.contains(keys@[i as int]));
            match self.volumes.get(&keys[i]) {
                Some(v) => {
                    r.push(v);
                },
                None => {
                    assert(false);
                },
            }
            i = i + 1;
        }
        assert(lists_keys(keys@, self@.volumes.dom()));
        assert forall|v: u128| #[trigger] self.volumes@.contains_key(v) implies exists|j: int|
            0 <= j < r@.len() && *(#[trigger] r@[j]) == self.volumes@[v] by {
            let j = choose|j: int| 0 <= j < keys@.len() && keys@[j] == v;
            assert(*r@[j] == self@.volumes[keys@[j]]);
        }
        r
    }

    /// Get all cluster nodes, in the order of their identifiers.
    pub fn list_nodes(&self) -> (r: Vec<&ClusterNode>)
        ensures
            exists|keys: Seq<u128>|
                {
                    &&& #[trigger] lists_keys(keys, self@.nodes.dom())
                    &&& r@.len() == keys.len()
                    &&& forall|i: int|
                        0 <= i < r@.len() ==> (#[trigger] r@[i])@ == self@.nodes[keys[i]]
                },
            r@.len() == self.nodes@.len(),
            forall|n: u128| #[trigger]
                self.nodes@.contains_key(n) ==> exists|i: int|
                    0 <= i < r@.len() && *(#[trigger] r@[i]) == self.nodes@[n],
    {
        let keys = sorted_ids(&self.nodes);
        let mut r: Vec<&ClusterNode> = Vec::new();
        let mut i: usize = 0;
        while i < keys.len()
            invariant
                i <= keys@.len(),
                i == r@.len(),
                forall|k: u128| #[trigger] self.nodes@.contains_key(k) <==> keys@.contains(k),
                forall|j: int|
                    0 <= j < i ==> self@.nodes.contains_key(keys@[j]) && (#[trigger] r@[j])@
                        == self@.nodes[keys@[j]] && *r@[j] == self.nodes@[keys@[j]],
            decreases keys@.len() - i,
        {
            assert(keys@.contains(keys@[i as int]));
            match self.nodes.get(&keys[i]) {
                Some(n) => {
                    r.push(n);
                },
                None => {
                    assert(false);
                },
            }
            i = i + 1;
        }
        assert(self@.nodes.dom() =~= self.nodes@.dom());
        assert(lists_keys(keys@, self@.nodes.dom()));
        assert forall|n: u128| #[trigger] self.nodes@.contains_key(n) implies exists|j: int|
            0 <= j < r@.len() && *(#[trigger] r@[j]) == self.nodes@[n] by {
            let j = choose|j: int| 0 <= j < keys@.len() && keys@[j] == n;
            assert(*r@[j] == self.nodes@[keys@[j]]);
        }
        r
    }

    /// Get a cluster node.
    pub fn get_node(&self, node_id: &NodeId) -> (r: Option<&ClusterNode>)
        ensures
            match r {
                Some(n) => self@.nodes.contains_key(node_id.value) && n@
                    == self@.nodes[node_id.value],
                None => !self@.nodes.contains_key(node_id.value),
            },
    {
        self.nodes.get(&node_id.value)
    }

    /// Get the current placement epoch.
    pub fn current_epoch(&self) -> (r: EpochId)
        ensures
            r == self@.epoch,
    {
        self.epoch
    }

    /// Look up the raft node number of a node.
    pub fn get_raft_id(&self, node_id: &NodeId) -> (r: Option<u64>)
        ensures
            r == (if self@.raft_ids.contains_key(node_id.value) {
                Some(self@.raft_ids[node_id.value])
            } else {
                None
            }),
    {
        match self.node_raft_map.get(&node_id.value) {
            Some(raft_id) => Some(*raft_id),
            None => None,
        }
    }

    /// Get the last raft node number that was assigned.
    pub fn raft_id_counter(&self) -> (r: u64)
        ensures
            r == self@.raft_id_counter,
    {
        self.raft_id_counter
    }

    /// Get the active lease for a volume, if any.
    pub fn get_lease(&self, volume_id: &VolumeId) -> (r: Option<&VolumeLease>)
        ensures
            match r {
                Some(l) => self@.leases.contains_key(volume_id.value) && *l
                    == self@.leases[volume_id.value],
                None => !self@.leases.contains_key(volume_id.value),
            },
    {
        self.leases.get(&volume_id.value)
    }

    /// Look up the node that has a raft node number.
    pub fn get_node_id_by_raft_id(&self, raft_id: u64) -> (r: Option<NodeId>)
        ensures
            match r {
                Some(n) => self@.raft_ids.contains_key(n.value) && self@.raft_ids[n.value]
                    == raft_id,
                None => forall|n: u128| #[trigger]
                    self@.raft_ids.contains_key(n) ==> self@.raft_ids[n] != raft_id,
            },
            self@.wf() ==> {
                &&& r is Some <==> 1 <= raft_id <= self@.raft_id_counter
                &&& forall|n: NodeId|
                    r == Some(n) <==> #[trigger] self@.raft_ids.contains_key(n.value)
                        && self@.raft_ids[n.value] == raft_id
            },
    {
        for pair in it: self.node_raft_map.iter()
            invariant
                it.seq() == self.node_raft_map.iter().remaining(),
                forall|i: int| 0 <= i < it.index() ==> *(#[trigger] it.seq()[i]).1 != raft_id,
        {
            assert(it.seq()[it.index()] == pair);
            if *pair.1 == raft_id {
                proof {
                    if self@.wf() {
                        consensus_numbers_are_consecutive(self@, raft_id);
                        assert(self@.raft_ids.contains_key(*pair.0));
                    }
                }
                return Some(NodeId::new(*pair.0));
            }
        }
        proof {
            let seq = self.node_raft_map.iter().remaining();
            assert forall|n: u128| #[trigger]
                self@.raft_ids.contains_key(n) implies self@.raft_ids[n] != raft_id by {
                assert(seq.contains((&n, &self.node_raft_map@[n])));
                let j = choose|j: int| 0 <= j < seq.len() && seq[j] == (&n, &self.node_raft_map@[n]);
                assert(*seq[j].1 != raft_id);
            }
            if self@.wf() {
                consensus_numbers_are_consecutive(self@, raft_id);
            }
        }
        None
    }

    /// Validate a lease version for write fencing.
    ///
    /// Returns `Ok` if the given session holds a valid, non-expired lease
    /// with matching version for the given volume.
    pub fn validate_lease(
        &self,
        volume_id: &VolumeId,
        session_id: SessionId,
        lease_version: LeaseVersion,
        now_ms: u64,
    ) -> (r: Result<(), String>)
        ensures
            match r {
                Ok(_) => self@.lease_fault(*volume_id, session_id, lease_version, now_ms) is None,
                Err(msg) => self@.lease_fault(*volume_id, session_id, lease_version, now_ms)
                    == Some(msg@),
            },
            r is Ok <==> {
                let lease = self.leases@[volume_id.value];
                &&& self.leases@.contains_key(volume_id.value)
                &&& lease.holder == session_id
                &&& now_ms < lease.expires_at_ms
                &&& lease.lease_version == lease_version
            },
    {
        let lease: VolumeLease = match self.leases.get(&volume_id.value) {
            Some(lease) => *lease,
            None => {
                return Err(join2("no lease for volume ", volume_id.to_text().as_str()));
            },
        };
        if !lease.is_held_by(session_id) {
            let head = join4(
                "lease for volume ",
                volume_id.to_text().as_str(),
                " held by session ",
                lease.holder.to_text().as_str(),
            );
            return Err(join3(head.as_str(), ", not ", session_id.to_text().as_str()));
        }
        if lease.is_expired(now_ms) {
            return Err(
                join3("lease for volume ", volume_id.to_text().as_str(), " has expired"),
            );
        }
        if lease.lease_version != lease_version {
            return Err(
                join4(
                    "stale lease version: request has ",
                    decimal_text(lease_version).as_str(),
                    ", current is ",
                    decimal_text(lease.lease_version).as_str(),
                ),
            );
        }
        Ok(())
    }
}

} // verus!
