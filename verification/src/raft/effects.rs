//! What each request to the metadata state machine does, record by record and field by
//! field: what is written, what is refused, and what stays as it was.

use crate::ids::{DiskId, NodeId, OperationId, SessionId, VolumeId};
use crate::raft::laws::{batch_version, lemma_batch_state};
use crate::raft::model::{MappingModel, MetadataModel};
use crate::raft::request::{ExtentMappingEntry, MetadataRequest};
use crate::raft::response::{Answer, LeaseAnswer, MetadataResponse};
use crate::raft::state_machine::{ExtentMapping, MetadataStateMachineData};
use crate::text::{contains_text, decimal, joined_text_contains_its_parts, uuid_text};
use crate::types::{LeaseRequest, LeaseResponse, ProtectionPolicy};
use vstd::prelude::*;

verus! {

/// The model of the state holds each field of each record as the records have it.
pub proof fn the_model_shows_the_records(data: MetadataStateMachineData)
    ensures
        data@.epoch == data.epoch,
        data@.volumes == data.volumes@,
        data@.leases == data.leases@,
        data@.lease_version_counter == data.lease_version_counter,
        data@.raft_id_counter == data.raft_id_counter,
        data@.raft_ids == data.node_raft_map@,
        data@.disks == data.disks@,
        data@.operation_index == data.operation_index@,
        data@.version_index == data.extent_version_index@,
        forall|n: u128| #[trigger] data@.nodes.contains_key(n) <==> data.nodes@.contains_key(n),
        forall|n: u128| #[trigger]
            data.nodes@.contains_key(n) ==> data@.nodes[n].node_id == data.nodes@[n].node_id
                && data@.nodes[n].addr == data.nodes@[n].addr@,
        forall|k: Seq<char>| #[trigger]
            data@.placement.contains_key(k) <==> data.placement_map@.contains_key(k),
        forall|k: Seq<char>| #[trigger]
            data.placement_map@.contains_key(k) ==> data@.placement[k]
                == data.placement_map@[k]@,
        forall|v: u128| #[trigger]
            data@.mappings.contains_key(v) <==> data.extent_mappings@.contains_key(v),
        forall|v: u128, s: u64| #[trigger]
            data@.has_mapping(v, s) <==> data.extent_mappings@.contains_key(v)
                && data.extent_mappings@[v]@.contains_key(s),
        forall|v: u128, s: u64| #[trigger]
            data@.has_mapping(v, s) ==> data@.mappings[v][s] == data.extent_mappings@[v]@[s]@,
{
}

/// The model of a mapping holds each of its fields; none of its replicas or checksums is
/// left out.
pub proof fn the_model_shows_the_mapping(mapping: ExtentMapping)
    ensures
        mapping@.extent_id == mapping.extent_id,
        mapping@.extent_version == mapping.extent_version,
        mapping@.epoch == mapping.epoch,
        mapping@.block_range.start == mapping.block_range.start,
        mapping@.block_range.end == mapping.block_range.end,
        mapping@.operation_id == mapping.operation_id,
        mapping@.replica_locations == mapping.replica_locations@,
        mapping@.checksums.len() == mapping.checksums@.len(),
        forall|i: int|
            0 <= i < mapping.checksums@.len() ==> #[trigger] mapping@.checksums[i]
                == mapping.checksums@[i]@,
{
}

/// The model of an answer says what the answer says.
pub proof fn the_model_shows_the_answer(answer: MetadataResponse)
    ensures
        answer@ is Done <==> answer is Done,
        answer@ is Error <==> answer is Error,
        answer@ is DiskRegistered <==> answer is DiskRegistered,
        answer matches MetadataResponse::Error(msg) ==> answer@ == Answer::Error(msg@),
        answer@ matches Answer::Epoch(e) ==> answer == MetadataResponse::Epoch(e),
        answer@ matches Answer::NodeRegistered(n) ==> answer == MetadataResponse::NodeRegistered(n),
        answer@ matches Answer::Lease(LeaseAnswer::Granted { lease_version, expires_at_ms })
            ==> answer == MetadataResponse::Lease(
            LeaseResponse::Granted { lease_version, expires_at_ms },
        ),
        answer@ matches Answer::Lease(LeaseAnswer::Renewed { lease_version, expires_at_ms })
            ==> answer == MetadataResponse::Lease(
            LeaseResponse::Renewed { lease_version, expires_at_ms },
        ),
        answer@ == Answer::Lease(LeaseAnswer::Released) ==> answer == MetadataResponse::Lease(
            LeaseResponse::Released,
        ),
        (answer@ matches Answer::Lease(a) && a is Denied) ==> (answer matches MetadataResponse::Lease(
            a,
        ) && a is Denied),
{
}

/// Whether two states agree on everything but the mappings and their indexes.
pub open spec fn same_but_mappings(m: MetadataModel, after: MetadataModel) -> bool {
    &&& after.epoch == m.epoch
    &&& after.nodes == m.nodes
    &&& after.volumes == m.volumes
    &&& after.placement == m.placement
    &&& after.leases == m.leases
    &&& after.lease_version_counter == m.lease_version_counter
    &&& after.raft_id_counter == m.raft_id_counter
    &&& after.raft_ids == m.raft_ids
    &&& after.disks == m.disks
}

/// Whether two states agree on the mappings and their indexes.
pub open spec fn same_mappings(m: MetadataModel, after: MetadataModel) -> bool {
    &&& after.mappings == m.mappings
    &&& after.operation_index == m.operation_index
    &&& after.version_index == m.version_index
}

/// Whether a mapping has what was asked for in every field.
pub open spec fn is_as_asked(now: MappingModel, asked: ExtentMappingEntry) -> bool {
    &&& now.extent_id == asked.extent_id
    &&& now.extent_version == asked.extent_version
    &&& now.epoch == asked.epoch
    &&& now.block_range.start == asked.block_range.start
    &&& now.block_range.end == asked.block_range.end
    &&& now.operation_id == asked.operation_id
    &&& now.replica_locations.len() == asked.replica_locations@.len()
    &&& forall|i: int|
        0 <= i < asked.replica_locations@.len() ==> #[trigger] now.replica_locations[i]
            == asked.replica_locations@[i]
    &&& now.checksums.len() == asked.checksums@.len()
    &&& forall|i: int|
        0 <= i < asked.checksums@.len() ==> #[trigger] now.checksums[i] == asked.checksums@[i]@
}

/// The request to commit one mapping.
pub open spec fn commit_of(asked: ExtentMappingEntry) -> MetadataRequest {
    MetadataRequest::CommitExtentMapping {
        volume_id: asked.volume_id,
        block_range: asked.block_range,
        extent_id: asked.extent_id,
        extent_version: asked.extent_version,
        epoch: asked.epoch,
        replica_locations: asked.replica_locations,
        checksums: asked.checksums,
        operation_id: asked.operation_id,
        previous_version: asked.previous_version,
    }
}

/// A commit that is not refused leaves, at the first block of its range, a mapping that
/// has every field as it was asked for; every other mapping, and all else, stays.
pub proof fn committed_mapping_is_as_asked(m: MetadataModel, asked: ExtentMappingEntry)
    requires
        m.wf(),
        !(m.apply(commit_of(asked)).1 is Error),
    ensures
        ({
            let after = m.apply(commit_of(asked)).0;
            let v = asked.volume_id.value;
            let s = asked.block_range.start;
            &&& m.apply(commit_of(asked)).1 == Answer::Epoch(m.epoch)
            &&& after.mappings.dom() == m.mappings.dom()
            &&& after.mappings.contains_key(v)
            &&& after.mappings[v].contains_key(s)
            &&& is_as_asked(after.mappings[v][s], asked)
            &&& after.version_index.contains_key(asked.extent_version)
            &&& after.version_index[asked.extent_version] == (v, s)
            &&& asked.operation_id matches Some(op) ==> after.operation_index.contains_key(op.value)
                && after.operation_index[op.value] == (v, s)
            &&& forall|w: u128, t: u64|
                w != v || t != s ==> {
                    &&& #[trigger] after.has_mapping(w, t) == m.has_mapping(w, t)
                    &&& m.has_mapping(w, t) ==> after.mappings[w][t] == m.mappings[w][t]
                }
            &&& forall|ver: u64|
                ver != asked.extent_version ==> {
                    let replaced = m.mappings[v].contains_key(s) && m.mappings[v][s].extent_version
                        == ver;
                    &&& #[trigger] after.version_index.contains_key(ver) <==> !replaced
                        && m.version_index.contains_key(ver)
                    &&& !replaced ==> after.version_index[ver] == m.version_index[ver]
                }
            &&& forall|op: u128|
                asked.operation_id != Some(OperationId { value: op }) ==> {
                    let replaced = m.mappings[v].contains_key(s) && m.mappings[v][s].operation_id
                        == Some(OperationId { value: op });
                    &&& #[trigger] after.operation_index.contains_key(op) <==> !replaced
                        && m.operation_index.contains_key(op)
                    &&& !replaced ==> after.operation_index[op] == m.operation_index[op]
                }
            &&& same_but_mappings(m, after)
        }),
{
    let after = m.apply(commit_of(asked)).0;
    let v = asked.volume_id.value;
    assert(m.mappings.dom().contains(v));
    assert(after.mappings.dom() =~= m.mappings.dom());
}

/// A commit is refused exactly where the volume is not known, the epoch is not the current
/// one, or the mapping at the block does not have the version that was expected; a block
/// without a mapping has version 0. A refusal changes nothing.
pub proof fn commits_are_refused_exactly(m: MetadataModel, asked: ExtentMappingEntry)
    requires
        m.wf(),
    ensures
        ({
            let v = asked.volume_id.value;
            let s = asked.block_range.start;
            let there: u64 = if m.mappings.contains_key(v) && m.mappings[v].contains_key(s) {
                m.mappings[v][s].extent_version
            } else {
                0
            };
            let (after, answer) = m.apply(commit_of(asked));
            &&& answer is Error <==> {
                ||| !m.volumes.contains_key(v)
                ||| asked.epoch.value != m.epoch.value
                ||| (asked.previous_version is Some && asked.previous_version->0 != there)
            }
            &&& answer is Error ==> after == m
        }),
{
}

/// Whether two entries of a batch are for one block.
pub open spec fn same_block(a: ExtentMappingEntry, b: ExtentMappingEntry) -> bool {
    a.volume_id.value == b.volume_id.value && a.block_range.start == b.block_range.start
}

/// Whether an entry is the last of a batch for its block.
pub open spec fn is_last_for_block(entries: Seq<ExtentMappingEntry>, i: int) -> bool {
    forall|j: int| i < j < entries.len() ==> !same_block(#[trigger] entries[j], entries[i])
}

/// Whether the version that an entry expects is the one that its block has when the
/// entries before it are committed: that of the last of them for the block, or else that
/// of the mapping in the state, where no mapping has version 0.
pub open spec fn finds_what_it_expects(
    m: MetadataModel,
    entries: Seq<ExtentMappingEntry>,
    i: int,
) -> bool {
    let v = entries[i].volume_id.value;
    let s = entries[i].block_range.start;
    let there: u64 = if m.mappings.contains_key(v) && m.mappings[v].contains_key(s) {
        m.mappings[v][s].extent_version
    } else {
        0
    };
    entries[i].previous_version matches Some(expected) ==> {
        &&& (forall|j: int| 0 <= j < i ==> !same_block(#[trigger] entries[j], entries[i]))
            ==> expected == there
        &&& forall|j: int|
            0 <= j < i && same_block(#[trigger] entries[j], entries[i]) && (forall|k: int|
                j < k < i ==> !same_block(#[trigger] entries[k], entries[i])) ==> expected
                == entries[j].extent_version
    }
}

proof fn lemma_batch_version_by_block(
    m: MetadataModel,
    entries: Seq<ExtentMappingEntry>,
    count: int,
    asked: ExtentMappingEntry,
)
    requires
        0 <= count <= entries.len(),
    ensures
        ({
            let v = asked.volume_id.value;
            let s = asked.block_range.start;
            let found = batch_version(m, entries.take(count), v, s);
            &&& (forall|j: int| 0 <= j < count ==> !same_block(#[trigger] entries[j], asked))
                ==> found == m.version_at(v, s)
            &&& forall|j: int|
                0 <= j < count && same_block(#[trigger] entries[j], asked) && (forall|k: int|
                    j < k < count ==> !same_block(#[trigger] entries[k], asked)) ==> found == Some(
                    entries[j].extent_version,
                )
        }),
    decreases count,
{
    if count > 0 {
        lemma_batch_version_by_block(m, entries, count - 1, asked);
        assert(entries.take(count).drop_last() =~= entries.take(count - 1));
        assert(entries.take(count).last() == entries[count - 1]);
        let v = asked.volume_id.value;
        let s = asked.block_range.start;
        let found = batch_version(m, entries.take(count), v, s);
        if !same_block(entries[count - 1], asked) {
            assert(found == batch_version(m, entries.take(count - 1), v, s));
            assert forall|j: int|
                0 <= j < count && same_block(#[trigger] entries[j], asked) && (forall|k: int|
                    j < k < count ==> !same_block(
                        #[trigger] entries[k],
                        asked,
                    )) implies found == Some(entries[j].extent_version) by {
                assert(forall|k: int|
                    j < k < count - 1 ==> !same_block(#[trigger] entries[k], asked));
            }
        } else {
            assert(found == Some(entries[count - 1].extent_version));
            assert forall|j: int|
                0 <= j < count && same_block(#[trigger] entries[j], asked) && (forall|k: int|
                    j < k < count ==> !same_block(
                        #[trigger] entries[k],
                        asked,
                    )) implies found == Some(entries[j].extent_version) by {
                if j < count - 1 {
                    assert(!same_block(entries[count - 1], asked));
                }
            }
        }
    }
}

/// Whether an entry of a batch can be committed when those before it are: its volume is
/// known, its epoch is the current one, and it finds the version that it expects.
pub open spec fn is_due(m: MetadataModel, entries: Seq<ExtentMappingEntry>, i: int) -> bool {
    &&& m.volumes.contains_key(entries[i].volume_id.value)
    &&& entries[i].epoch.value == m.epoch.value
    &&& finds_what_it_expects(m, entries, i)
}

proof fn lemma_batch_is_due(m: MetadataModel, entries: Seq<ExtentMappingEntry>, count: int)
    requires
        m.wf(),
        0 <= count <= entries.len(),
    ensures
        m.commit_batch(entries.take(count)) is Ok <==> forall|i: int|
            0 <= i < count ==> #[trigger] is_due(m, entries, i),
    decreases count,
{
    if count > 0 {
        let i = count - 1;
        lemma_batch_is_due(m, entries, i);
        assert(entries.take(count).drop_last() =~= entries.take(i));
        assert(entries.take(count).last() == entries[i]);
        if m.commit_batch(entries.take(i)) is Ok {
            let mid = m.commit_batch(entries.take(i))->Ok_0;
            let e = entries[i];
            assert forall|v: u128| #[trigger] m.volumes.contains_key(v) implies m.mappings.contains_key(
                v,
            ) by {
                assert(m.mappings.dom().contains(v));
            }
            lemma_batch_state(m, entries.take(i));
            lemma_batch_version_by_block(m, entries, i, e);
            let v = e.volume_id.value;
            let s = e.block_range.start;
            let found = mid.version_at(v, s);
            assert(found == batch_version(m, entries.take(i), v, s));
            if forall|j: int| 0 <= j < i ==> !same_block(#[trigger] entries[j], e) {
                assert(found == m.version_at(v, s));
            } else {
                let j = lemma_last_for_block(entries, i, e);
                assert(found == Some(entries[j].extent_version));
            }
            assert(mid.commit_fault(e.volume_id, s, e.epoch, e.previous_version) is None
                <==> is_due(m, entries, i));
        }
        if m.commit_batch(entries.take(count)) is Ok {
            assert forall|k: int| 0 <= k < count implies #[trigger] is_due(m, entries, k) by {
                if k < i {
                    assert(is_due(m, entries, k));
                }
            }
        }
        if forall|k: int| 0 <= k < count ==> #[trigger] is_due(m, entries, k) {
            assert(is_due(m, entries, i));
            assert(forall|k: int| 0 <= k < i ==> #[trigger] is_due(m, entries, k));
        }
    }
}

proof fn lemma_last_for_block(
    entries: Seq<ExtentMappingEntry>,
    count: int,
    asked: ExtentMappingEntry,
) -> (j: int)
    requires
        0 <= count <= entries.len(),
        exists|j: int| 0 <= j < count && same_block(#[trigger] entries[j], asked),
    ensures
        0 <= j < count,
        same_block(entries[j], asked),
        forall|k: int| j < k < count ==> !same_block(#[trigger] entries[k], asked),
    decreases count,
{
    if same_block(entries[count - 1], asked) {
        count - 1
    } else {
        lemma_last_for_block(entries, count - 1, asked)
    }
}

/// A batch is accepted exactly where every entry can be committed when those before it
/// are; otherwise nothing changes.
pub proof fn batches_are_accepted_exactly(m: MetadataModel, mappings: Vec<ExtentMappingEntry>)
    requires
        m.wf(),
    ensures
        ({
            let (after, answer) = m.apply(MetadataRequest::CommitExtentMappingBatch { mappings });
            &&& answer == Answer::Epoch(m.epoch) || answer is Error
            &&& !(answer is Error) <==> forall|i: int|
                0 <= i < mappings@.len() ==> #[trigger] is_due(m, mappings@, i)
            &&& answer is Error ==> after == m
        }),
{
    lemma_batch_is_due(m, mappings@, mappings@.len() as int);
    assert(mappings@.take(mappings@.len() as int) =~= mappings@);
}

proof fn lemma_batch_writes(m: MetadataModel, entries: Seq<ExtentMappingEntry>)
    requires
        m.wf(),
        m.commit_batch(entries) is Ok,
    ensures
        ({
            let after = m.commit_batch(entries)->Ok_0;
            &&& same_but_mappings(m, after)
            &&& after.mappings.dom() == m.mappings.dom()
            &&& forall|i: int|
                0 <= i < entries.len() && #[trigger] is_last_for_block(entries, i) ==> {
                    let v = entries[i].volume_id.value;
                    let s = entries[i].block_range.start;
                    &&& after.mappings.contains_key(v)
                    &&& after.mappings[v].contains_key(s)
                    &&& is_as_asked(after.mappings[v][s], entries[i])
                }
            &&& forall|w: u128, t: u64|
                (forall|i: int|
                    0 <= i < entries.len() ==> (#[trigger] entries[i]).volume_id.value != w
                        || entries[i].block_range.start != t) ==> {
                    &&& #[trigger] after.has_mapping(w, t) == m.has_mapping(w, t)
                    &&& m.has_mapping(w, t) ==> after.mappings[w][t] == m.mappings[w][t]
                }
        }),
    decreases entries.len(),
{
    if entries.len() > 0 {
        let front = entries.drop_last();
        let last = entries.len() - 1;
        let e = entries[last];
        lemma_batch_writes(m, front);
        let mid = m.commit_batch(front)->Ok_0;
        let after = m.commit_batch(entries)->Ok_0;
        assert(m.mappings.dom().contains(e.volume_id.value));
        assert(mid.mappings.contains_key(e.volume_id.value));
        assert(after.mappings.dom() =~= m.mappings.dom());
        assert forall|i: int|
            0 <= i < entries.len() && #[trigger] is_last_for_block(entries, i) implies {
            let v = entries[i].volume_id.value;
            let s = entries[i].block_range.start;
            &&& after.mappings.contains_key(v)
            &&& after.mappings[v].contains_key(s)
            &&& is_as_asked(after.mappings[v][s], entries[i])
        } by {
            if i < last {
                assert(!same_block(entries[last], entries[i]));
                assert(front[i] == entries[i]);
                assert(is_last_for_block(front, i)) by {
                    assert forall|j: int| i < j < front.len() implies !same_block(
                        #[trigger] front[j],
                        front[i],
                    ) by {
                        assert(!same_block(entries[j], entries[i]));
                    }
                }
            }
        }
        assert forall|w: u128, t: u64|
            (forall|i: int|
                0 <= i < entries.len() ==> (#[trigger] entries[i]).volume_id.value != w
                    || entries[i].block_range.start != t) implies {
            &&& #[trigger] after.has_mapping(w, t) == m.has_mapping(w, t)
            &&& m.has_mapping(w, t) ==> after.mappings[w][t] == m.mappings[w][t]
        } by {
            assert(entries[last].volume_id.value != w || entries[last].block_range.start != t);
            assert forall|i: int| 0 <= i < front.len() implies (
            #[trigger] front[i]).volume_id.value != w || front[i].block_range.start != t by {
                assert(front[i] == entries[i]);
            }
            assert(mid.has_mapping(w, t) == m.has_mapping(w, t));
        }
    }
}

/// A batch that is accepted leaves at each of its blocks a mapping that has every field as
/// the last entry for the block asked; every other mapping, and all else, stays.
pub proof fn committed_batch_is_as_asked(m: MetadataModel, mappings: Vec<ExtentMappingEntry>)
    requires
        m.wf(),
        !(m.apply(MetadataRequest::CommitExtentMappingBatch { mappings }).1 is Error),
    ensures
        ({
            let after = m.apply(MetadataRequest::CommitExtentMappingBatch { mappings }).0;
            &&& same_but_mappings(m, after)
            &&& after.mappings.dom() == m.mappings.dom()
            &&& forall|i: int|
                0 <= i < mappings@.len() && #[trigger] is_last_for_block(mappings@, i) ==> {
                    let v = mappings@[i].volume_id.value;
                    let s = mappings@[i].block_range.start;
                    &&& after.mappings.contains_key(v)
                    &&& after.mappings[v].contains_key(s)
                    &&& is_as_asked(after.mappings[v][s], mappings@[i])
                }
            &&& forall|w: u128, t: u64|
                (forall|i: int|
                    0 <= i < mappings@.len() ==> (#[trigger] mappings@[i]).volume_id.value != w
                        || mappings@[i].block_range.start != t) ==> {
                    &&& #[trigger] after.has_mapping(w, t) == m.has_mapping(w, t)
                    &&& m.has_mapping(w, t) ==> after.mappings[w][t] == m.mappings[w][t]
                }
        }),
{
    lemma_batch_writes(m, mappings@);
}

/// A batch of one mapping does what the commit of that mapping does.
pub proof fn batch_of_one_is_a_commit(m: MetadataModel, mappings: Vec<ExtentMappingEntry>)
    requires
        mappings@.len() == 1,
    ensures
        m.apply(MetadataRequest::CommitExtentMappingBatch { mappings }) == m.apply(
            commit_of(mappings@[0]),
        ),
{
    assert(mappings@.drop_last() =~= Seq::<ExtentMappingEntry>::empty());
    reveal_with_fuel(MetadataModel::commit_batch, 2);
}

/// A volume that is created has what was asked for, no mapping and no lease of its own
/// making; creation is refused exactly where the volume exists or the policy asks for
/// nothing, and a refusal changes nothing.
pub proof fn volumes_are_created_as_asked(
    m: MetadataModel,
    volume_id: VolumeId,
    size_bytes: u64,
    protection: ProtectionPolicy,
)
    ensures
        ({
            let v = volume_id.value;
            let (after, answer) = m.apply(
                MetadataRequest::CreateVolume { volume_id, size_bytes, protection },
            );
            &&& answer is Done || answer is Error
            &&& answer is Error <==> m.volumes.contains_key(v) || (match protection {
                ProtectionPolicy::Replicated { replicas } => replicas == 0,
                ProtectionPolicy::ErasureCoded { data_chunks, parity_chunks } => data_chunks == 0
                    || parity_chunks == 0,
            })
            &&& answer is Error ==> after == m
            &&& answer is Done ==> {
                &&& after.volumes.contains_key(v)
                &&& after.volumes[v].volume_id == volume_id
                &&& after.volumes[v].size_bytes == size_bytes
                &&& after.volumes[v].protection == protection
                &&& after.volumes[v].created_at_epoch == m.epoch
                &&& after.volumes.remove(v) == m.volumes.remove(v)
                &&& after.mappings.contains_key(v)
                &&& forall|s: u64| !(#[trigger] after.mappings[v].contains_key(s))
                &&& after.mappings.remove(v) == m.mappings.remove(v)
                &&& after.epoch == m.epoch
                &&& after.nodes == m.nodes
                &&& after.operation_index == m.operation_index
                &&& after.version_index == m.version_index
                &&& after.placement == m.placement
                &&& after.leases == m.leases
                &&& after.lease_version_counter == m.lease_version_counter
                &&& after.raft_id_counter == m.raft_id_counter
                &&& after.raft_ids == m.raft_ids
                &&& after.disks == m.disks
            }
        }),
{
    let v = volume_id.value;
    let after = m.apply(MetadataRequest::CreateVolume { volume_id, size_bytes, protection }).0;
    assert(after.volumes.remove(v) =~= m.volumes.remove(v));
    assert(after.mappings.remove(v) =~= m.mappings.remove(v));
}

/// Deleting a volume takes its record, its mappings and its lease away, and from the
/// indexes exactly what pointed at its mappings; everything of other volumes stays. It is
/// refused exactly where there is no such volume.
pub proof fn deletion_takes_one_volume(m: MetadataModel, volume_id: VolumeId)
    requires
        m.wf(),
    ensures
        ({
            let v = volume_id.value;
            let (after, answer) = m.apply(MetadataRequest::DeleteVolume { volume_id });
            &&& answer is Done || answer is Error
            &&& answer is Error <==> !m.volumes.contains_key(v)
            &&& answer is Error ==> after == m
            &&& answer is Done ==> {
                &&& after.volumes == m.volumes.remove(v)
                &&& after.mappings == m.mappings.remove(v)
                &&& after.leases == m.leases.remove(v)
                &&& forall|op: u128|
                    #![trigger after.operation_index.contains_key(op)]
                    #![trigger m.operation_index.contains_key(op)]
                    after.operation_index.contains_key(op) ==> m.operation_index.contains_key(op)
                        && after.operation_index[op] == m.operation_index[op]
                &&& forall|op: u128|
                    #![trigger after.operation_index.contains_key(op)]
                    #![trigger m.operation_index.contains_key(op)]
                    after.operation_index.contains_key(op) ==> after.operation_index[op].0 != v
                &&& forall|ver: u64|
                    #![trigger after.version_index.contains_key(ver)]
                    #![trigger m.version_index.contains_key(ver)]
                    after.version_index.contains_key(ver) ==> m.version_index.contains_key(ver)
                        && after.version_index[ver] == m.version_index[ver]
                        && after.version_index[ver].0 != v
                &&& forall|op: u128| #[trigger]
                    m.operation_index.contains_key(op) && (forall|s: u64| #[trigger]
                        m.mappings[v].contains_key(s) ==> m.mappings[v][s].operation_id != Some(
                            OperationId { value: op },
                        )) ==> after.operation_index.contains_key(op)
                &&& forall|ver: u64| #[trigger]
                    m.version_index.contains_key(ver) && (forall|s: u64| #[trigger]
                        m.mappings[v].contains_key(s) ==> m.mappings[v][s].extent_version != ver)
                        ==> after.version_index.contains_key(ver)
                &&& after.epoch == m.epoch
                &&& after.nodes == m.nodes
                &&& after.placement == m.placement
                &&& after.lease_version_counter == m.lease_version_counter
                &&& after.raft_id_counter == m.raft_id_counter
                &&& after.raft_ids == m.raft_ids
                &&& after.disks == m.disks
            }
        }),
{
    let v = volume_id.value;
    let after = m.apply(MetadataRequest::DeleteVolume { volume_id }).0;
    if m.volumes.contains_key(v) {
        assert forall|op: u128| #[trigger]
            after.operation_index.contains_key(op) implies m.operation_index.contains_key(op)
            && after.operation_index[op] == m.operation_index[op] && after.operation_index[op].0
            != v by {
            assert(m.operation_index.contains_key(op));
            let (w, t) = m.operation_index[op];
            assert(m.has_mapping(w, t));
            if w == v {
                assert(m.operations_of(v).contains(op));
            }
        }
        assert forall|ver: u64| #[trigger]
            after.version_index.contains_key(ver) implies m.version_index.contains_key(ver)
            && after.version_index[ver] == m.version_index[ver] && after.version_index[ver].0
            != v by {
            assert(m.version_index.contains_key(ver));
            let (w, t) = m.version_index[ver];
            assert(m.has_mapping(w, t));
            if w == v {
                assert(m.versions_of(v).contains(ver));
            }
        }
        assert forall|op: u128| #[trigger]
            m.operation_index.contains_key(op) && (forall|s: u64| #[trigger]
                m.mappings[v].contains_key(s) ==> m.mappings[v][s].operation_id != Some(
                    OperationId { value: op },
                )) implies after.operation_index.contains_key(op) by {
            if m.operations_of(v).contains(op) {
                let s = choose|s: u64| #[trigger]
                    m.has_mapping(v, s) && m.mappings[v][s].operation_id == Some(
                        OperationId { value: op },
                    );
                assert(m.mappings[v].contains_key(s));
            }
        }
        assert forall|ver: u64| #[trigger]
            m.version_index.contains_key(ver) && (forall|s: u64| #[trigger]
                m.mappings[v].contains_key(s) ==> m.mappings[v][s].extent_version
                    != ver) implies after.version_index.contains_key(ver) by {
            if m.versions_of(v).contains(ver) {
                let s = choose|s: u64| #[trigger]
                    m.has_mapping(v, s) && m.mappings[v][s].extent_version == ver;
                assert(m.mappings[v].contains_key(s));
            }
        }
    }
}

/// Advancing the epoch moves it on by one, as the answer says, and changes nothing else.
pub proof fn epochs_advance_by_one(m: MetadataModel)
    ensures
        ({
            let (after, answer) = m.apply(MetadataRequest::AdvanceEpoch);
            &&& m.epoch.value < u64::MAX ==> after.epoch.value == m.epoch.value + 1
            &&& m.epoch.value == u64::MAX ==> after.epoch.value == u64::MAX
            &&& answer == Answer::Epoch(after.epoch)
            &&& same_mappings(m, after)
            &&& after.nodes == m.nodes
            &&& after.volumes == m.volumes
            &&& after.placement == m.placement
            &&& after.leases == m.leases
            &&& after.lease_version_counter == m.lease_version_counter
            &&& after.raft_id_counter == m.raft_id_counter
            &&& after.raft_ids == m.raft_ids
            &&& after.disks == m.disks
        }),
{
}

/// Whether two states agree on everything but the nodes and their consensus numbers.
pub open spec fn same_but_nodes(m: MetadataModel, after: MetadataModel) -> bool {
    &&& after.epoch == m.epoch
    &&& after.volumes == m.volumes
    &&& same_mappings(m, after)
    &&& after.placement == m.placement
    &&& after.leases == m.leases
    &&& after.lease_version_counter == m.lease_version_counter
    &&& after.disks == m.disks
}

/// A node that is added or registered is found with the address it came with, and a node
/// that is removed is not found; the other nodes stay. Only the removal of a node that is
/// not there is refused.
pub proof fn nodes_are_kept_as_told(
    m: MetadataModel,
    req: MetadataRequest,
    node_id: NodeId,
    addr: String,
)
    requires
        req == (MetadataRequest::AddNode { node_id, addr }) || req == (
        MetadataRequest::RegisterNode { node_id, addr }) || req == (
        MetadataRequest::RemoveNode { node_id }),
    ensures
        ({
            let n = node_id.value;
            let (after, answer) = m.apply(req);
            &&& answer is Error <==> req is RemoveNode && !m.nodes.contains_key(n)
            &&& answer is Error ==> after == m
            &&& req is RemoveNode ==> !after.nodes.contains_key(n)
            &&& !(req is RemoveNode) ==> after.nodes.contains_key(n) && after.nodes[n].node_id
                == node_id && after.nodes[n].addr == addr@
            &&& after.nodes.remove(n) == m.nodes.remove(n)
            &&& !(req is RegisterNode) ==> after.raft_ids == m.raft_ids && after.raft_id_counter
                == m.raft_id_counter
            &&& after.raft_ids.remove(n) == m.raft_ids.remove(n)
            &&& same_but_nodes(m, after)
        }),
{
    let n = node_id.value;
    let after = m.apply(req).0;
    assert(after.nodes.remove(n) =~= m.nodes.remove(n));
    assert(after.raft_ids.remove(n) =~= m.raft_ids.remove(n));
}

/// A disk that is registered has the node and the capacity it came with, and keeps the
/// usage that was known of it, or has none; its usage is what was told last; a disk that is
/// deregistered is gone. The other disks stay, and only a disk that is not there is refused.
pub proof fn disks_are_kept_as_told(
    m: MetadataModel,
    req: MetadataRequest,
    disk_id: DiskId,
    node_id: NodeId,
    bytes: u64,
)
    requires
        m.wf(),
        req == (MetadataRequest::RegisterDisk { disk_id, node_id, capacity_bytes: bytes }) || req
            == (MetadataRequest::UpdateDiskUsage { disk_id, used_bytes: bytes }) || req == (
        MetadataRequest::DeregisterDisk { disk_id }),
    ensures
        ({
            let d = disk_id.value;
            let (after, answer) = m.apply(req);
            let disk = after.disks[d];
            &&& answer is Error <==> !(req is RegisterDisk) && !m.disks.contains_key(d)
            &&& answer is Error ==> after == m
            &&& req is RegisterDisk ==> {
                &&& answer is DiskRegistered
                &&& after.disks.contains_key(d)
                &&& disk.disk_id == disk_id
                &&& disk.node_id == node_id
                &&& disk.capacity_bytes == bytes
                &&& m.disks.contains_key(d) ==> disk.used_bytes == m.disks[d].used_bytes
                &&& !m.disks.contains_key(d) ==> disk.used_bytes == 0
            }
            &&& req is UpdateDiskUsage && m.disks.contains_key(d) ==> {
                &&& answer is Done
                &&& after.disks.contains_key(d)
                &&& disk.used_bytes == bytes
                &&& disk.disk_id == disk_id
                &&& disk.node_id == m.disks[d].node_id
                &&& disk.capacity_bytes == m.disks[d].capacity_bytes
            }
            &&& req is DeregisterDisk ==> !after.disks.contains_key(d)
            &&& after.disks.remove(d) == m.disks.remove(d)
            &&& after.epoch == m.epoch
            &&& after.nodes == m.nodes
            &&& after.volumes == m.volumes
            &&& same_mappings(m, after)
            &&& after.placement == m.placement
            &&& after.leases == m.leases
            &&& after.lease_version_counter == m.lease_version_counter
            &&& after.raft_id_counter == m.raft_id_counter
            &&& after.raft_ids == m.raft_ids
        }),
{
    let d = disk_id.value;
    let after = m.apply(req).0;
    assert(after.disks.remove(d) =~= m.disks.remove(d));
}

proof fn lemma_assigned(
    placement: Map<Seq<char>, Seq<NodeId>>,
    assignments: Seq<(String, Vec<NodeId>)>,
)
    ensures
        ({
            let after = crate::raft::model::assigned(placement, assignments);
            &&& forall|i: int|
                0 <= i < assignments.len() && (forall|j: int|
                    i < j < assignments.len() ==> (#[trigger] assignments[j]).0@
                        != assignments[i].0@) ==> after.contains_key((#[trigger] assignments[i]).0@)
                    && after[assignments[i].0@] == assignments[i].1@
            &&& forall|k: Seq<char>|
                (forall|i: int| 0 <= i < assignments.len() ==> (#[trigger] assignments[i]).0@ != k)
                    ==> #[trigger] after.contains_key(k) == placement.contains_key(k) && after[k]
                    == placement[k]
        }),
    decreases assignments.len(),
{
    if assignments.len() > 0 {
        let front = assignments.drop_last();
        let last = assignments.len() - 1;
        lemma_assigned(placement, front);
        let before = crate::raft::model::assigned(placement, front);
        let after = crate::raft::model::assigned(placement, assignments);
        assert forall|i: int|
            0 <= i < assignments.len() && (forall|j: int|
                i < j < assignments.len() ==> (#[trigger] assignments[j]).0@
                    != assignments[i].0@) implies after.contains_key((#[trigger] assignments[i]).0@)
            && after[assignments[i].0@] == assignments[i].1@ by {
            if i < last {
                assert(assignments[last].0@ != assignments[i].0@);
                assert(front[i] == assignments[i]);
                assert forall|j: int| i < j < front.len() implies (#[trigger] front[j]).0@
                    != front[i].0@ by {
                    assert(assignments[j].0@ != assignments[i].0@);
                }
            }
        }
        assert forall|k: Seq<char>|
            (forall|i: int| 0 <= i < assignments.len() ==> (#[trigger] assignments[i]).0@
                != k) implies #[trigger] after.contains_key(k) == placement.contains_key(k)
            && after[k] == placement[k] by {
            assert(assignments[last].0@ != k);
            assert forall|i: int| 0 <= i < front.len() implies (#[trigger] front[i]).0@ != k by {
                assert(assignments[i].0@ != k);
            }
            assert(before.contains_key(k) == placement.contains_key(k));
        }
    }
}

/// After the placement map is updated, each key that was assigned has the nodes of its last
/// assignment, in order, and every other key what it had; nothing else changes.
pub proof fn placement_is_as_assigned(m: MetadataModel, assignments: Vec<(String, Vec<NodeId>)>)
    ensures
        ({
            let (after, answer) = m.apply(MetadataRequest::UpdatePlacementMap { assignments });
            &&& answer is Done
            &&& forall|i: int|
                0 <= i < assignments@.len() && (forall|j: int|
                    i < j < assignments@.len() ==> (#[trigger] assignments@[j]).0@
                        != assignments@[i].0@) ==> after.placement.contains_key(
                    (#[trigger] assignments@[i]).0@,
                ) && after.placement[assignments@[i].0@] == assignments@[i].1@
            &&& forall|k: Seq<char>|
                (forall|i: int|
                    0 <= i < assignments@.len() ==> (#[trigger] assignments@[i]).0@ != k)
                    ==> #[trigger] after.placement.contains_key(k) == m.placement.contains_key(k)
                    && after.placement[k] == m.placement[k]
            &&& after.epoch == m.epoch
            &&& after.nodes == m.nodes
            &&& after.volumes == m.volumes
            &&& same_mappings(m, after)
            &&& after.leases == m.leases
            &&& after.lease_version_counter == m.lease_version_counter
            &&& after.raft_id_counter == m.raft_id_counter
            &&& after.raft_ids == m.raft_ids
            &&& after.disks == m.disks
        }),
{
    lemma_assigned(m.placement, assignments@);
}

/// Whether two states agree on everything but the leases and the count of their versions.
pub open spec fn same_but_leases(m: MetadataModel, after: MetadataModel) -> bool {
    &&& after.epoch == m.epoch
    &&& after.nodes == m.nodes
    &&& after.volumes == m.volumes
    &&& same_mappings(m, after)
    &&& after.placement == m.placement
    &&& after.raft_id_counter == m.raft_id_counter
    &&& after.raft_ids == m.raft_ids
    &&& after.disks == m.disks
}

/// A lease is granted exactly where the volume exists and nobody else holds a lease that
/// still runs. What is granted is what is stored and what is answered: it is the session's
/// from now on until `ttl_ms` later, under the next version.
pub proof fn leases_are_granted_exactly(
    m: MetadataModel,
    volume_id: VolumeId,
    session_id: SessionId,
    now_ms: u64,
    ttl_ms: u64,
)
    requires
        m.lease_version_counter < u64::MAX,
        now_ms + ttl_ms <= u64::MAX,
    ensures
        ({
            let v = volume_id.value;
            let req = LeaseRequest::Acquire { volume_id, session_id, now_ms, ttl_ms };
            let (after, answer) = m.apply(MetadataRequest::Lease(req));
            let free = !m.leases.contains_key(v) || m.leases[v].expires_at_ms <= now_ms
                || m.leases[v].holder == session_id;
            &&& m.apply_lease(req) == (after, answer->Lease_0)
            &&& answer is Lease
            &&& if m.volumes.contains_key(v) && free {
                let lease = after.leases[v];
                &&& answer->Lease_0 == LeaseAnswer::Granted {
                    lease_version: (m.lease_version_counter + 1) as u64,
                    expires_at_ms: (now_ms + ttl_ms) as u64,
                }
                &&& after.lease_version_counter == m.lease_version_counter + 1
                &&& after.leases.contains_key(v)
                &&& lease.volume_id == volume_id
                &&& lease.holder == session_id
                &&& lease.granted_at_ms == now_ms
                &&& lease.expires_at_ms == now_ms + ttl_ms
                &&& lease.lease_version == m.lease_version_counter + 1
                &&& after.leases.remove(v) == m.leases.remove(v)
                &&& same_but_leases(m, after)
            } else {
                answer->Lease_0 is Denied && after == m
            }
        }),
{
    let req = LeaseRequest::Acquire { volume_id, session_id, now_ms, ttl_ms };
    let v = volume_id.value;
    assert(m.apply_lease(req).0.leases.remove(v) =~= m.leases.remove(v));
}

/// A lease is renewed exactly where the session holds it and it still runs. The lease that
/// is stored then runs until `ttl_ms` from now, as the answer says, under the next version.
pub proof fn leases_are_renewed_exactly(
    m: MetadataModel,
    volume_id: VolumeId,
    session_id: SessionId,
    now_ms: u64,
    ttl_ms: u64,
)
    requires
        m.wf(),
        m.lease_version_counter < u64::MAX,
        now_ms + ttl_ms <= u64::MAX,
    ensures
        ({
            let v = volume_id.value;
            let req = LeaseRequest::Renew { volume_id, session_id, now_ms, ttl_ms };
            let (after, answer) = m.apply(MetadataRequest::Lease(req));
            &&& m.apply_lease(req) == (after, answer->Lease_0)
            &&& answer is Lease
            &&& if m.leases.contains_key(v) && m.leases[v].holder == session_id && now_ms
                < m.leases[v].expires_at_ms {
                let lease = after.leases[v];
                &&& answer->Lease_0 == LeaseAnswer::Renewed {
                    lease_version: (m.lease_version_counter + 1) as u64,
                    expires_at_ms: (now_ms + ttl_ms) as u64,
                }
                &&& after.lease_version_counter == m.lease_version_counter + 1
                &&& after.leases.contains_key(v)
                &&& lease.volume_id == volume_id
                &&& lease.holder == session_id
                &&& lease.granted_at_ms == m.leases[v].granted_at_ms
                &&& lease.expires_at_ms == now_ms + ttl_ms
                &&& lease.lease_version == m.lease_version_counter + 1
                &&& after.leases.remove(v) == m.leases.remove(v)
                &&& same_but_leases(m, after)
            } else {
                answer->Lease_0 is Denied && after == m
            }
        }),
{
    let req = LeaseRequest::Renew { volume_id, session_id, now_ms, ttl_ms };
    let v = volume_id.value;
    assert(m.apply_lease(req).0.leases.remove(v) =~= m.leases.remove(v));
}

/// A session may write under a version exactly where it holds the volume's lease, the lease
/// still runs, and the version is the lease's.
pub proof fn writes_are_fenced_exactly(
    m: MetadataModel,
    volume_id: VolumeId,
    session_id: SessionId,
    lease_version: u64,
    now_ms: u64,
)
    ensures
        m.lease_fault(volume_id, session_id, lease_version, now_ms) is None <==> {
            let v = volume_id.value;
            &&& m.leases.contains_key(v)
            &&& m.leases[v].holder == session_id
            &&& now_ms < m.leases[v].expires_at_ms
            &&& m.leases[v].lease_version == lease_version
        },
{
}

/// A session whose lease is granted or renewed may write under the version it was answered
/// at every time before `now_ms + ttl_ms`, which is the expiry it was answered, and at no
/// time from then on; and nobody else may write meanwhile.
pub proof fn leases_run_as_answered(
    m: MetadataModel,
    req: LeaseRequest,
    volume_id: VolumeId,
    session_id: SessionId,
    now_ms: u64,
    ttl_ms: u64,
    other: SessionId,
    other_version: u64,
    later_ms: u64,
)
    requires
        m.wf(),
        m.lease_version_counter < u64::MAX,
        now_ms + ttl_ms <= u64::MAX,
        req == (LeaseRequest::Acquire { volume_id, session_id, now_ms, ttl_ms }) || req == (
        LeaseRequest::Renew { volume_id, session_id, now_ms, ttl_ms }),
        m.apply_lease(req).1 is Granted || m.apply_lease(req).1 is Renewed,
    ensures
        ({
            let (after, answer) = m.apply_lease(req);
            let (version, expires_at_ms): (u64, u64) = match answer {
                LeaseAnswer::Granted { lease_version, expires_at_ms } => (
                    lease_version,
                    expires_at_ms,
                ),
                LeaseAnswer::Renewed { lease_version, expires_at_ms } => (
                    lease_version,
                    expires_at_ms,
                ),
                _ => (0, 0),
            };
            &&& expires_at_ms == now_ms + ttl_ms
            &&& after.leases.contains_key(volume_id.value)
            &&& after.leases[volume_id.value].expires_at_ms == expires_at_ms
            &&& after.lease_fault(volume_id, session_id, version, later_ms) is None <==> later_ms
                < now_ms + ttl_ms
            &&& other != session_id || other_version != version ==> after.lease_fault(
                volume_id,
                other,
                other_version,
                later_ms,
            ) is Some
        }),
{
}

/// Cleaning up takes away exactly the leases that have run out, and nothing else.
pub proof fn cleanup_takes_what_has_run_out(m: MetadataModel, now_ms: u64)
    ensures
        ({
            let (after, answer) = m.apply(MetadataRequest::CleanupExpiredLeases { now_ms });
            &&& answer is Done
            &&& forall|v: u128| #[trigger]
                after.leases.contains_key(v) <==> m.leases.contains_key(v) && now_ms
                    < m.leases[v].expires_at_ms
            &&& forall|v: u128| #[trigger]
                after.leases.contains_key(v) ==> after.leases[v] == m.leases[v]
            &&& after.lease_version_counter == m.lease_version_counter
            &&& same_but_leases(m, after)
        }),
{
}

/// A new cluster has epoch 0, no records, and has given out no number.
pub proof fn new_clusters_are_empty()
    ensures
        ({
            let m = MetadataModel::initial();
            &&& m.epoch.value == 0
            &&& m.lease_version_counter == 0
            &&& m.raft_id_counter == 0
            &&& forall|k: u128| !(#[trigger] m.nodes.contains_key(k))
            &&& forall|k: u128| !(#[trigger] m.volumes.contains_key(k))
            &&& forall|k: u128| !(#[trigger] m.mappings.contains_key(k))
            &&& forall|k: u128| !(#[trigger] m.operation_index.contains_key(k))
            &&& forall|k: u64| !(#[trigger] m.version_index.contains_key(k))
            &&& forall|k: Seq<char>| !(#[trigger] m.placement.contains_key(k))
            &&& forall|k: u128| !(#[trigger] m.leases.contains_key(k))
            &&& forall|k: u128| !(#[trigger] m.raft_ids.contains_key(k))
            &&& forall|k: u128| !(#[trigger] m.disks.contains_key(k))
        }),
{
}

/// A request fits exactly where it does not have to make a number that is too large: the
/// expiry of a lease that is to be granted or renewed, or the next lease version or
/// consensus number.
pub proof fn requests_fit_exactly(m: MetadataModel, req: MetadataRequest)
    ensures
        m.fits(req) <==> match req {
            MetadataRequest::Lease(
                LeaseRequest::Acquire { volume_id, session_id, now_ms, ttl_ms },
            ) => {
                let v = volume_id.value;
                ||| m.lease_version_counter < u64::MAX && now_ms + ttl_ms <= u64::MAX
                ||| !m.volumes.contains_key(v)
                ||| (m.leases.contains_key(v) && now_ms < m.leases[v].expires_at_ms
                    && m.leases[v].holder != session_id)
            },
            MetadataRequest::Lease(
                LeaseRequest::Renew { volume_id, session_id, now_ms, ttl_ms },
            ) => {
                let v = volume_id.value;
                ||| m.lease_version_counter < u64::MAX && now_ms + ttl_ms <= u64::MAX
                ||| !m.leases.contains_key(v)
                ||| m.leases[v].holder != session_id
                ||| m.leases[v].expires_at_ms <= now_ms
            },
            MetadataRequest::RegisterNode { node_id, .. } => m.raft_ids.contains_key(node_id.value)
                || m.raft_id_counter < u64::MAX,
            _ => true,
        },
{
}

/// A mapping is found by an operation, or by an extent version, exactly where the index
/// points at a mapping, and it is that mapping.
pub proof fn lookups_follow_the_indexes(m: MetadataModel, op: OperationId, version: u64)
    requires
        m.wf(),
    ensures
        m.lookup_operation(op) is Some <==> m.operation_index.contains_key(op.value),
        m.lookup_operation(op) matches Some(found) ==> {
            let (v, s) = m.operation_index[op.value];
            &&& m.mappings.contains_key(v)
            &&& m.mappings[v].contains_key(s)
            &&& found == m.mappings[v][s]
            &&& found.operation_id == Some(op)
        },
        m.lookup_version(version) is Some <==> m.version_index.contains_key(version),
        m.lookup_version(version) matches Some(found) ==> {
            let (v, s) = m.version_index[version];
            &&& m.mappings.contains_key(v)
            &&& m.mappings[v].contains_key(s)
            &&& found == m.mappings[v][s]
            &&& found.extent_version == version
        },
{
}

/// A refusal to commit says what is wrong: which volume is not known, or both the epoch that
/// was asked for and the current one, or both the version that was expected and the one, or
/// the block, that was found.
pub proof fn refused_commits_say_why(m: MetadataModel, asked: ExtentMappingEntry)
    requires
        m.wf(),
        m.apply(commit_of(asked)).1 is Error,
    ensures
        ({
            let v = asked.volume_id.value;
            let s = asked.block_range.start;
            let reason = m.apply(commit_of(asked)).1->Error_0;
            if !m.volumes.contains_key(v) {
                contains_text(reason, uuid_text(v))
            } else if asked.epoch.value != m.epoch.value {
                contains_text(reason, decimal(asked.epoch.value as nat)) && contains_text(
                    reason,
                    decimal(m.epoch.value as nat),
                )
            } else if m.mappings[v].contains_key(s) {
                contains_text(reason, decimal(asked.previous_version->0 as nat)) && contains_text(
                    reason,
                    decimal(m.mappings[v][s].extent_version as nat),
                )
            } else {
                contains_text(reason, decimal(asked.previous_version->0 as nat)) && contains_text(
                    reason,
                    decimal(s as nat),
                )
            }
        }),
{
    let v = asked.volume_id.value;
    let s = asked.block_range.start;
    joined_text_contains_its_parts("volume "@, uuid_text(v), " not found"@);
    let epoch_head = "stale epoch: request has "@;
    let epoch = decimal(asked.epoch.value as nat);
    let current = decimal(m.epoch.value as nat);
    lemma_two_parts(epoch_head, epoch, ", current is "@, current);
    let expected = decimal(asked.previous_version->0 as nat);
    let found = decimal(m.mappings[v][s].extent_version as nat);
    lemma_two_parts("CAS failure: expected version "@, expected, ", found "@, found);
    lemma_two_parts(
        "CAS failure: no existing mapping at block "@,
        decimal(s as nat),
        ", expected version "@,
        expected,
    );
    if m.volumes.contains_key(v) {
        assert(m.mappings.dom().contains(v));
    }
}

proof fn lemma_two_parts(head: Seq<char>, a: Seq<char>, middle: Seq<char>, b: Seq<char>)
    ensures
        contains_text(head + a + middle + b, a),
        contains_text(head + a + middle + b, b),
{
    joined_text_contains_its_parts(head, a, middle + b);
    assert(head + a + (middle + b) =~= head + a + middle + b);
    joined_text_contains_its_parts(head + a + middle, b, Seq::empty());
}

/// A lease that is not granted names the volume, and the holder where somebody else holds it.
pub proof fn refused_acquisitions_name_the_holder(
    m: MetadataModel,
    volume_id: VolumeId,
    session_id: SessionId,
    now_ms: u64,
    ttl_ms: u64,
)
    ensures
        m.apply_lease(
            LeaseRequest::Acquire { volume_id, session_id, now_ms, ttl_ms },
        ).1 matches LeaseAnswer::Denied { reason } ==> {
            let v = volume_id.value;
            &&& contains_text(reason, uuid_text(v))
            &&& m.volumes.contains_key(v) ==> contains_text(
                reason,
                uuid_text(m.leases[v].holder.value),
            )
        },
{
    let v = volume_id.value;
    let volume = uuid_text(v);
    let holder = uuid_text(m.leases[v].holder.value);
    joined_text_contains_its_parts("volume "@, volume, " not found"@);
    lemma_two_parts("volume "@, volume, " lease held by session "@, holder);
}

/// A lease that is not renewed or not released names the volume, and one that is not renewed
/// the holder where somebody else holds it.
pub proof fn refused_renewals_name_the_holder(
    m: MetadataModel,
    volume_id: VolumeId,
    session_id: SessionId,
    now_ms: u64,
    ttl_ms: u64,
)
    ensures
        m.apply_lease(
            LeaseRequest::Renew { volume_id, session_id, now_ms, ttl_ms },
        ).1 matches LeaseAnswer::Denied { reason } ==> {
            let v = volume_id.value;
            &&& contains_text(reason, uuid_text(v))
            &&& m.leases.contains_key(v) && m.leases[v].holder != session_id ==> contains_text(
                reason,
                uuid_text(m.leases[v].holder.value),
            )
        },
        m.apply_lease(
            LeaseRequest::Release { volume_id, session_id },
        ).1 matches LeaseAnswer::Denied { reason } ==> contains_text(
            reason,
            uuid_text(volume_id.value),
        ),
{
    let v = volume_id.value;
    let volume = uuid_text(v);
    let holder = uuid_text(m.leases[v].holder.value);
    joined_text_contains_its_parts("no lease exists for volume "@, volume, Seq::empty());
    lemma_two_parts("lease for volume "@, volume, " held by different session "@, holder);
    joined_text_contains_its_parts(
        "lease for volume "@,
        volume,
        " has expired, must re-acquire"@,
    );
    joined_text_contains_its_parts(
        "cannot release lease for volume "@,
        volume,
        ": held by different session"@,
    );
}

/// A refused write names the holder where somebody else holds the lease, both versions where
/// the lease runs under another one, and else the volume.
pub proof fn refused_writes_say_why(
    m: MetadataModel,
    volume_id: VolumeId,
    session_id: SessionId,
    lease_version: u64,
    now_ms: u64,
)
    ensures
        m.lease_fault(volume_id, session_id, lease_version, now_ms) matches Some(reason) ==> {
            let v = volume_id.value;
            let lease = m.leases[v];
            if m.leases.contains_key(v) && lease.holder != session_id {
                contains_text(reason, uuid_text(lease.holder.value))
            } else if m.leases.contains_key(v) && now_ms < lease.expires_at_ms {
                contains_text(reason, decimal(lease_version as nat)) && contains_text(
                    reason,
                    decimal(lease.lease_version as nat),
                )
            } else {
                contains_text(reason, uuid_text(v))
            }
        },
{
    let v = volume_id.value;
    let volume = uuid_text(v);
    let lease = m.leases[v];
    if !m.leases.contains_key(v) {
        joined_text_contains_its_parts("no lease for volume "@, volume, Seq::empty());
    } else if lease.holder != session_id {
        let holder = uuid_text(lease.holder.value);
        let head = "lease for volume "@ + volume + " held by session "@;
        let tail = ", not "@ + session_id.text();
        joined_text_contains_its_parts(head, holder, tail);
        assert(head + holder + tail =~= "lease for volume "@ + volume + " held by session "@ + holder
            + ", not "@ + session_id.text());
    } else if lease.expires_at_ms <= now_ms {
        joined_text_contains_its_parts("lease for volume "@, volume, " has expired"@);
    } else {
        lemma_two_parts(
            "stale lease version: request has "@,
            decimal(lease_version as nat),
            ", current is "@,
            decimal(lease.lease_version as nat),
        );
    }
}

/// The state after mappings were committed one by one.
pub open spec fn committed_one_by_one(
    m: MetadataModel,
    entries: Seq<ExtentMappingEntry>,
) -> MetadataModel
    decreases entries.len(),
{
    if entries.len() == 0 {
        m
    } else {
        committed_one_by_one(m, entries.drop_last()).apply(commit_of(entries.last())).0
    }
}

/// A batch that is accepted does what the commits of its mappings do one after another, to the
/// mappings and to the indexes, and none of these commits is refused.
pub proof fn batches_are_commits_in_order(m: MetadataModel, mappings: Vec<ExtentMappingEntry>, i: int)
    requires
        !(m.apply(MetadataRequest::CommitExtentMappingBatch { mappings }).1 is Error),
        0 <= i < mappings@.len(),
    ensures
        m.apply(MetadataRequest::CommitExtentMappingBatch { mappings }).0 == committed_one_by_one(
            m,
            mappings@,
        ),
        !(committed_one_by_one(m, mappings@.take(i)).apply(commit_of(mappings@[i])).1 is Error),
{
    lemma_batch_is_commits(m, mappings@);
    crate::raft::laws::lemma_batch_prefix_ok(m, mappings@, i + 1);
    let upto = mappings@.take(i + 1);
    assert(upto.drop_last() =~= mappings@.take(i));
    assert(upto.last() == mappings@[i]);
    crate::raft::laws::lemma_batch_prefix_ok(m, mappings@, i);
    lemma_batch_is_commits(m, mappings@.take(i));
}

proof fn lemma_batch_is_commits(m: MetadataModel, entries: Seq<ExtentMappingEntry>)
    requires
        m.commit_batch(entries) is Ok,
    ensures
        m.commit_batch(entries)->Ok_0 == committed_one_by_one(m, entries),
    decreases entries.len(),
{
    if entries.len() > 0 {
        lemma_batch_is_commits(m, entries.drop_last());
    }
}

} // verus!
