//! Laws of the metadata state machine.

use crate::ids::{EpochId, OperationId, SessionId, VolumeId};
use crate::raft::model::{entry_mapping, is_given_out, MappingModel, MetadataModel};
use crate::raft::request::{ExtentMappingEntry, MetadataRequest};
use crate::raft::response::{Answer, LeaseAnswer};
use crate::types::{LeaseRequest, LeaseVersion};
use vstd::prelude::*;

verus! {

/// The extent version that a block has after a batch.
pub open spec fn batch_version(
    m: MetadataModel,
    entries: Seq<ExtentMappingEntry>,
    volume: u128,
    start: u64,
) -> Option<u64>
    decreases entries.len(),
{
    if entries.len() == 0 {
        m.version_at(volume, start)
    } else if entries.last().volume_id.value == volume && entries.last().block_range.start == start {
        Some(entries.last().extent_version)
    } else {
        batch_version(m, entries.drop_last(), volume, start)
    }
}

/// A batch leaves the volumes and the epoch alone, and gives each block the
/// version that the last entry for it has.
pub proof fn lemma_batch_state(m: MetadataModel, entries: Seq<ExtentMappingEntry>)
    requires
        m.has_tables(),
        m.commit_batch(entries) is Ok,
    ensures
        ({
            let after = m.commit_batch(entries)->Ok_0;
            &&& after.mappings.dom() == m.mappings.dom()
            &&& after.volumes == m.volumes
            &&& after.epoch == m.epoch
            &&& forall|v: u128, s: u64| #[trigger]
                after.version_at(v, s) == batch_version(m, entries, v, s)
        }),
    decreases entries.len(),
{
    if entries.len() > 0 {
        let front = entries.drop_last();
        lemma_batch_state(m, front);
        let mid = m.commit_batch(front)->Ok_0;
        let after = m.commit_batch(entries)->Ok_0;
        let e = entries.last();
        assert(m.volumes.contains_key(e.volume_id.value));
        assert(m.mappings.dom().contains(e.volume_id.value));
        assert(mid.mappings.contains_key(e.volume_id.value));
        assert(after == mid.commit(e.volume_id, entry_mapping(e)));
        assert(after.mappings.dom() =~= m.mappings.dom());
        assert forall|v: u128, s: u64| #[trigger] after.version_at(v, s) == batch_version(
            m,
            entries,
            v,
            s,
        ) by {
            assert(mid.version_at(v, s) == batch_version(m, front, v, s));
        }
    }
}

/// Once a prefix of a batch fails, the batch fails in the same way.
pub proof fn lemma_batch_fails_early(m: MetadataModel, entries: Seq<ExtentMappingEntry>, count: int)
    requires
        0 <= count <= entries.len(),
        m.commit_batch(entries.take(count)) is Err,
    ensures
        m.commit_batch(entries) == m.commit_batch(entries.take(count)),
    decreases entries.len(),
{
    if count == entries.len() {
        assert(entries.take(count) =~= entries);
    } else {
        assert(entries.drop_last().take(count) =~= entries.take(count));
        lemma_batch_fails_early(m, entries.drop_last(), count);
    }
}

/// Every prefix of a batch that can be committed can be committed.
pub proof fn lemma_batch_prefix_ok(m: MetadataModel, entries: Seq<ExtentMappingEntry>, count: int)
    requires
        0 <= count <= entries.len(),
        m.commit_batch(entries) is Ok,
    ensures
        m.commit_batch(entries.take(count)) is Ok,
{
    if m.commit_batch(entries.take(count)) is Err {
        lemma_batch_fails_early(m, entries, count);
    }
}

/// Committing a mapping keeps the state well formed.
pub proof fn lemma_commit_keeps_wf(m: MetadataModel, volume_id: VolumeId, mapping: MappingModel)
    requires
        m.wf(),
        m.volumes.contains_key(volume_id.value),
        mapping.epoch == m.epoch,
    ensures
        m.commit(volume_id, mapping).wf(),
{
    let v = volume_id.value;
    let s = mapping.block_range.start;
    let after = m.commit(volume_id, mapping);
    assert(m.mappings.contains_key(v));
    assert(after.mappings.dom() =~= m.volumes.dom());
    assert forall|w: u128, t: u64| #[trigger] after.has_mapping(w, t) implies after.mappings[w][t].block_range.start
        == t && after.mappings[w][t].epoch.value <= after.epoch.value by {
        if !(w == v && t == s) {
            assert(m.has_mapping(w, t));
        }
    }
    assert forall|op: u128| #[trigger] after.operation_index.contains_key(op) implies {
        let (w, t) = after.operation_index[op];
        after.has_mapping(w, t) && after.mappings[w][t].operation_id == Some(
            OperationId { value: op },
        )
    } by {
        if !(mapping.operation_id is Some && mapping.operation_id->0.value == op) {
            assert(m.operation_index.contains_key(op));
            let (w, t) = m.operation_index[op];
            assert(m.has_mapping(w, t));
        }
    }
    assert forall|ver: u64| #[trigger] after.version_index.contains_key(ver) implies {
        let (w, t) = after.version_index[ver];
        after.has_mapping(w, t) && after.mappings[w][t].extent_version == ver
    } by {
        if ver != mapping.extent_version {
            assert(m.version_index.contains_key(ver));
            let (w, t) = m.version_index[ver];
            assert(m.has_mapping(w, t));
        }
    }
}

/// A batch that can be committed keeps the state well formed.
pub proof fn lemma_batch_keeps_wf(m: MetadataModel, entries: Seq<ExtentMappingEntry>)
    requires
        m.wf(),
        m.commit_batch(entries) is Ok,
    ensures
        (m.commit_batch(entries)->Ok_0).wf(),
    decreases entries.len(),
{
    if entries.len() > 0 {
        let front = entries.drop_last();
        lemma_batch_keeps_wf(m, front);
        lemma_batch_state(m, front);
        let e = entries.last();
        lemma_commit_keeps_wf(m.commit_batch(front)->Ok_0, e.volume_id, entry_mapping(e));
    }
}

/// Deleting a volume keeps the state well formed.
pub proof fn lemma_delete_keeps_wf(m: MetadataModel, volume: u128)
    requires
        m.wf(),
        m.volumes.contains_key(volume),
    ensures
        m.without_volume(volume).wf(),
{
    let after = m.without_volume(volume);
    assert(after.mappings.dom() =~= after.volumes.dom());
    assert forall|w: u128, t: u64| #[trigger] after.has_mapping(w, t) implies m.has_mapping(w, t)
        && after.mappings[w][t] == m.mappings[w][t] by {}
    assert forall|op: u128| #[trigger] after.operation_index.contains_key(op) implies {
        let (w, t) = after.operation_index[op];
        after.has_mapping(w, t) && after.mappings[w][t].operation_id == Some(
            OperationId { value: op },
        )
    } by {
        let (w, t) = m.operation_index[op];
        assert(m.operation_index.contains_key(op));
        assert(m.has_mapping(w, t));
        if w == volume {
            assert(m.operations_of(volume).contains(op));
        }
    }
    assert forall|ver: u64| #[trigger] after.version_index.contains_key(ver) implies {
        let (w, t) = after.version_index[ver];
        after.has_mapping(w, t) && after.mappings[w][t].extent_version == ver
    } by {
        let (w, t) = m.version_index[ver];
        assert(m.version_index.contains_key(ver));
        assert(m.has_mapping(w, t));
        if w == volume {
            assert(m.versions_of(volume).contains(ver));
        }
    }
}

/// The metadata of a new cluster is well formed.
pub proof fn initial_is_wf()
    ensures
        MetadataModel::initial().wf(),
{
    assert(MetadataModel::initial().mappings.dom() =~= MetadataModel::initial().volumes.dom());
}

/// Every request keeps a table of mappings for every volume.
pub proof fn apply_keeps_tables(m: MetadataModel, req: MetadataRequest)
    requires
        m.has_tables(),
    ensures
        m.apply(req).0.has_tables(),
{
    if let MetadataRequest::CommitExtentMappingBatch { mappings } = req {
        if m.commit_batch(mappings@) is Ok {
            lemma_batch_state(m, mappings@);
            let after = m.commit_batch(mappings@)->Ok_0;
            assert forall|v: u128| #[trigger] after.volumes.contains_key(v) implies after.mappings.contains_key(
                v,
            ) by {
                assert(m.volumes.contains_key(v));
                assert(m.mappings.dom().contains(v));
            }
        }
    }
}

/// Every request keeps the state well formed.
pub proof fn apply_keeps_wf(m: MetadataModel, req: MetadataRequest)
    requires
        m.wf(),
        m.fits(req),
    ensures
        m.apply(req).0.wf(),
{
    let after = m.apply(req).0;
    match req {
        MetadataRequest::CreateVolume { volume_id, .. } => {
            assert(after.mappings.dom() =~= after.volumes.dom());
            assert forall|w: u128, t: u64| #[trigger] after.has_mapping(w, t) implies m.has_mapping(
                w,
                t,
            ) && after.mappings[w][t] == m.mappings[w][t] by {}
            assert forall|w: u128, t: u64| #[trigger] m.has_mapping(w, t) implies after.has_mapping(
                w,
                t,
            ) && after.mappings[w][t] == m.mappings[w][t] by {
                assert(m.mappings.contains_key(w));
            }
        },
        MetadataRequest::DeleteVolume { volume_id } => {
            if m.volumes.contains_key(volume_id.value) {
                lemma_delete_keeps_wf(m, volume_id.value);
            }
        },
        MetadataRequest::CommitExtentMapping {
            volume_id,
            block_range,
            extent_id,
            extent_version,
            epoch,
            replica_locations,
            checksums,
            operation_id,
            previous_version,
        } => {
            if m.commit_fault(volume_id, block_range.start, epoch, previous_version) is None {
                lemma_commit_keeps_wf(
                    m,
                    volume_id,
                    MappingModel {
                        extent_id,
                        extent_version,
                        epoch,
                        block_range,
                        replica_locations: replica_locations@,
                        checksums: crate::collections::byte_views(checksums@),
                        operation_id,
                    },
                );
            }
        },
        MetadataRequest::CommitExtentMappingBatch { mappings } => {
            if m.commit_batch(mappings@) is Ok {
                lemma_batch_keeps_wf(m, mappings@);
            }
        },
        MetadataRequest::AdvanceEpoch => {
            assert forall|w: u128, t: u64| #[trigger] after.has_mapping(w, t) implies m.has_mapping(
                w,
                t,
            ) by {}
        },
        MetadataRequest::RegisterNode { node_id, .. } => {
            let n = node_id.value;
            assert forall|w: u128, t: u64| #[trigger] after.has_mapping(w, t) == m.has_mapping(
                w,
                t,
            ) by {}
            if !m.raft_ids.contains_key(n) {
                assert forall|raft_id: u64| 1 <= raft_id <= after.raft_id_counter implies #[trigger] is_given_out(
                    after.raft_ids,
                    raft_id,
                ) by {
                    if raft_id == after.raft_id_counter {
                        assert(after.raft_ids.contains_key(n));
                    } else {
                        assert(is_given_out(m.raft_ids, raft_id));
                        let k = choose|k: u128| #[trigger]
                            m.raft_ids.contains_key(k) && m.raft_ids[k] == raft_id;
                        assert(after.raft_ids.contains_key(k));
                    }
                }
            }
        },
        _ => {
            assert forall|w: u128, t: u64| #[trigger] after.has_mapping(w, t) == m.has_mapping(
                w,
                t,
            ) by {}
        },
    }
}

/// A refused request changes nothing.
pub proof fn refusal_changes_nothing(m: MetadataModel, req: MetadataRequest)
    requires
        m.apply(req).1 is Error || (m.apply(req).1 is Lease && m.apply(req).1->Lease_0 is Denied),
    ensures
        m.apply(req).0 == m,
{
}

/// The epoch never goes back, and only `AdvanceEpoch` moves it, by one, until
/// the last number is reached.
pub proof fn epoch_is_monotonic(m: MetadataModel, req: MetadataRequest)
    requires
        m.wf(),
    ensures
        m.epoch.value <= m.apply(req).0.epoch.value,
        !(req is AdvanceEpoch) ==> m.apply(req).0.epoch == m.epoch,
        req is AdvanceEpoch && m.epoch.value < u64::MAX ==> m.apply(req).0.epoch.value
            == m.epoch.value + 1,
{
    if let MetadataRequest::CommitExtentMappingBatch { mappings } = req {
        if m.commit_batch(mappings@) is Ok {
            lemma_batch_state(m, mappings@);
        }
    }
}

/// The lease version that an answer hands out: that of a lease that is granted or renewed.
pub open spec fn version_handed_out(answer: LeaseAnswer) -> Option<LeaseVersion> {
    match answer {
        LeaseAnswer::Granted { lease_version, .. } => Some(lease_version),
        LeaseAnswer::Renewed { lease_version, .. } => Some(lease_version),
        LeaseAnswer::Released => None,
        LeaseAnswer::Denied { .. } => None,
    }
}

/// A lease that is granted or renewed gets the version after the last that was given out,
/// which is then the last one; it is above that of every lease there is. Nothing else
/// that a lease request is answered gives a version out.
pub proof fn lease_versions_grow(m: MetadataModel, req: LeaseRequest)
    requires
        m.wf(),
        m.lease_fits(req),
    ensures
        m.apply_lease(req).1 is Granted || m.apply_lease(req).1 is Renewed <==> version_handed_out(
            m.apply_lease(req).1,
        ) is Some,
        version_handed_out(m.apply_lease(req).1) matches Some(version) ==> {
            &&& version == m.lease_version_counter + 1
            &&& version == m.apply_lease(req).0.lease_version_counter
            &&& forall|v: u128| #[trigger]
                m.leases.contains_key(v) ==> m.leases[v].lease_version < version
        },
        m.apply_lease(req).1 is Denied || m.apply_lease(req).1 is Released ==> m.apply_lease(
            req,
        ).0.lease_version_counter == m.lease_version_counter,
{
}

/// The count of lease versions that were given out grows by one with each that is, and
/// by nothing else: no request forgets one.
pub proof fn lease_counter_is_monotonic(m: MetadataModel, req: MetadataRequest)
    requires
        m.wf(),
        m.fits(req),
    ensures
        m.lease_version_counter <= m.apply(req).0.lease_version_counter,
        m.apply(req).0.lease_version_counter == m.lease_version_counter + (if m.apply(
            req,
        ).1 matches Answer::Lease(answer) && version_handed_out(answer) is Some {
            1int
        } else {
            0int
        }),
{
    if let MetadataRequest::CommitExtentMappingBatch { mappings } = req {
        lemma_batch_keeps_leases(m, mappings@);
    }
}

/// A session can release its own lease, expired or not, and a lease that is not there;
/// nobody else's. Once released, the lease is gone, and releasing it again is answered
/// the same and changes nothing. No other lease, no version and nothing else is touched.
pub proof fn release_can_be_repeated(m: MetadataModel, volume_id: VolumeId, session_id: SessionId)
    ensures
        ({
            let v = volume_id.value;
            let req = LeaseRequest::Release { volume_id, session_id };
            let (after, answer) = m.apply_lease(req);
            &&& answer is Released <==> !m.leases.contains_key(v) || m.leases[v].holder
                == session_id
            &&& answer is Released ==> {
                &&& !after.leases.contains_key(v)
                &&& after == (MetadataModel { leases: m.leases.remove(v), ..m })
                &&& after.apply_lease(req) == (after, LeaseAnswer::Released)
            }
            &&& !(answer is Released) ==> answer is Denied && m.leases.contains_key(v) && after == m
        }),
{
    assert(!m.leases.contains_key(volume_id.value) ==> m.leases.remove(volume_id.value)
        =~= m.leases);
}

proof fn lemma_batch_keeps_leases(m: MetadataModel, entries: Seq<ExtentMappingEntry>)
    ensures
        m.commit_batch(entries) matches Ok(after) ==> after.leases == m.leases
            && after.lease_version_counter == m.lease_version_counter,
    decreases entries.len(),
{
    if entries.len() > 0 {
        lemma_batch_keeps_leases(m, entries.drop_last());
    }
}

/// While a session's lease runs, no other session gets the volume's lease, and the
/// attempt leaves the lease as it is.
pub proof fn running_lease_is_exclusive(
    m: MetadataModel,
    volume_id: VolumeId,
    other: SessionId,
    now_ms: u64,
    ttl_ms: u64,
)
    requires
        m.wf(),
        m.leases.contains_key(volume_id.value),
        !m.leases[volume_id.value].expired_at(now_ms),
        m.leases[volume_id.value].holder != other,
    ensures
        m.apply_lease(
            LeaseRequest::Acquire { volume_id, session_id: other, now_ms, ttl_ms },
        ).1 is Denied,
        m.apply_lease(
            LeaseRequest::Renew { volume_id, session_id: other, now_ms, ttl_ms },
        ).1 is Denied,
        m.apply_lease(LeaseRequest::Release { volume_id, session_id: other }).1 is Denied,
        m.apply_lease(
            LeaseRequest::Acquire { volume_id, session_id: other, now_ms, ttl_ms },
        ).0 == m,
{
}

/// A session that was granted a lease can write under its version until it runs out.
pub proof fn granted_lease_is_valid(
    m: MetadataModel,
    volume_id: VolumeId,
    session_id: SessionId,
    now_ms: u64,
    ttl_ms: u64,
    later_ms: u64,
)
    requires
        m.wf(),
        ({
            let req = LeaseRequest::Acquire { volume_id, session_id, now_ms, ttl_ms };
            m.lease_fits(req) && m.apply_lease(req).1 is Granted
        }),
        later_ms < now_ms + ttl_ms,
    ensures
        ({
            let (after, answer) = m.apply_lease(
                LeaseRequest::Acquire { volume_id, session_id, now_ms, ttl_ms },
            );
            after.lease_fault(volume_id, session_id, answer->Granted_lease_version, later_ms) is None
        }),
{
}

/// Fencing: once a lease on a volume is granted or renewed, no version that was given
/// out before is accepted for the volume, whoever presents it and whenever.
pub proof fn old_lease_versions_are_fenced(
    m: MetadataModel,
    req: LeaseRequest,
    volume_id: VolumeId,
    session_id: SessionId,
    old_version: u64,
    later_ms: u64,
)
    requires
        m.wf(),
        m.lease_fits(req),
        old_version <= m.lease_version_counter,
        req matches LeaseRequest::Acquire { volume_id: v, .. } ==> v == volume_id,
        req matches LeaseRequest::Renew { volume_id: v, .. } ==> v == volume_id,
        m.apply_lease(req).1 is Granted || m.apply_lease(req).1 is Renewed,
    ensures
        m.apply_lease(req).0.lease_fault(volume_id, session_id, old_version, later_ms) is Some,
{
}

/// Renewing or re-acquiring one volume's lease leaves the other leases alone.
pub proof fn leases_are_independent(m: MetadataModel, req: LeaseRequest, other: u128)
    requires
        m.lease_fits(req),
        match req {
            LeaseRequest::Acquire { volume_id, .. } => volume_id.value != other,
            LeaseRequest::Renew { volume_id, .. } => volume_id.value != other,
            LeaseRequest::Release { volume_id, .. } => volume_id.value != other,
        },
    ensures
        m.apply_lease(req).0.leases.contains_key(other) == m.leases.contains_key(other),
        m.leases.contains_key(other) ==> m.apply_lease(req).0.leases[other] == m.leases[other],
{
}

/// A committed mapping is found by the operation that brought it, by its extent
/// version, and under its first block.
pub proof fn committed_mapping_is_found(m: MetadataModel, volume_id: VolumeId, mapping: MappingModel)
    requires
        m.wf(),
        m.volumes.contains_key(volume_id.value),
    ensures
        ({
            let after = m.commit(volume_id, mapping);
            &&& after.has_mapping(volume_id.value, mapping.block_range.start)
            &&& after.mappings[volume_id.value][mapping.block_range.start] == mapping
            &&& after.lookup_version(mapping.extent_version) == Some(mapping)
            &&& mapping.operation_id matches Some(op) ==> after.lookup_operation(op) == Some(
                mapping,
            )
        }),
{
}

/// A replaced mapping is no longer found: neither by its extent version nor by its
/// operation, unless the new mapping carries the same.
pub proof fn replaced_mapping_is_forgotten(
    m: MetadataModel,
    volume_id: VolumeId,
    mapping: MappingModel,
)
    requires
        m.wf(),
        m.has_mapping(volume_id.value, mapping.block_range.start),
    ensures
        ({
            let old_mapping = m.mappings[volume_id.value][mapping.block_range.start];
            let after = m.commit(volume_id, mapping);
            &&& old_mapping.extent_version != mapping.extent_version ==> after.lookup_version(
                old_mapping.extent_version,
            ) is None
            &&& old_mapping.operation_id is Some && old_mapping.operation_id != mapping.operation_id
                ==> after.lookup_operation(old_mapping.operation_id->0) is None
        }),
{
}

/// What a lookup by operation gives back carries that operation, and likewise for
/// a lookup by extent version; an indexed mapping is never missing.
pub proof fn lookups_are_sound(m: MetadataModel, op: OperationId, version: u64)
    requires
        m.wf(),
    ensures
        m.lookup_operation(op) matches Some(found) ==> found.operation_id == Some(op),
        m.lookup_operation(op) is Some <==> m.operation_index.contains_key(op.value),
        m.lookup_version(version) matches Some(found) ==> found.extent_version == version,
        m.lookup_version(version) is Some <==> m.version_index.contains_key(version),
{
}

/// A mapping is committed only in the current epoch, and with a compare-and-swap
/// only over the version that the caller expects.
pub proof fn commit_is_guarded(
    m: MetadataModel,
    volume_id: VolumeId,
    start: u64,
    epoch: EpochId,
    previous_version: Option<u64>,
)
    ensures
        m.commit_fault(volume_id, start, epoch, previous_version) is None <==> {
            &&& m.volumes.contains_key(volume_id.value)
            &&& epoch == m.epoch
            &&& previous_version matches Some(expected) ==> m.version_at(volume_id.value, start)
                == Some(expected) || (m.version_at(volume_id.value, start) is None && expected == 0)
        },
{
}

/// A deleted volume leaves nothing behind: no mapping, no lease, and no index entry
/// that leads to it; the mappings of the other volumes stay.
pub proof fn deleted_volume_leaves_nothing(m: MetadataModel, volume_id: VolumeId)
    requires
        m.wf(),
        m.volumes.contains_key(volume_id.value),
    ensures
        ({
            let v = volume_id.value;
            let after = m.apply(MetadataRequest::DeleteVolume { volume_id }).0;
            &&& !after.volumes.contains_key(v)
            &&& !after.mappings.contains_key(v)
            &&& !after.leases.contains_key(v)
            &&& forall|op: u128| #[trigger]
                after.operation_index.contains_key(op) ==> after.operation_index[op].0 != v
            &&& forall|ver: u64| #[trigger]
                after.version_index.contains_key(ver) ==> after.version_index[ver].0 != v
            &&& forall|w: u128|
                w != v && m.mappings.contains_key(w) ==> after.mappings.contains_key(w)
                    && #[trigger] after.mappings[w] == m.mappings[w]
        }),
{
    lemma_delete_keeps_wf(m, volume_id.value);
    let v = volume_id.value;
    let after = m.without_volume(v);
    assert forall|op: u128| #[trigger]
        after.operation_index.contains_key(op) implies after.operation_index[op].0 != v by {
        let (w, t) = after.operation_index[op];
        assert(after.has_mapping(w, t));
    }
    assert forall|ver: u64| #[trigger]
        after.version_index.contains_key(ver) implies after.version_index[ver].0 != v by {
        let (w, t) = after.version_index[ver];
        assert(after.has_mapping(w, t));
    }
}

/// Registering a node again gives the same number and assigns no new one; a new
/// node gets the next number, which no other node has.
pub proof fn registration_is_idempotent(
    m: MetadataModel,
    first: MetadataRequest,
    second: MetadataRequest,
)
    requires
        m.wf(),
        m.fits(first),
        first is RegisterNode,
        second is RegisterNode,
        first->RegisterNode_node_id == second->RegisterNode_node_id,
    ensures
        m.apply(first).0.apply(second).1 == m.apply(first).1,
        m.apply(first).0.apply(second).0.raft_id_counter == m.apply(first).0.raft_id_counter,
        m.apply(first).0.apply(second).0.raft_ids == m.apply(first).0.raft_ids,
        !m.raft_ids.contains_key(first->RegisterNode_node_id.value) ==> m.apply(first).1
            == Answer::NodeRegistered((m.raft_id_counter + 1) as u64) && forall|n: u128| #[trigger]
            m.raft_ids.contains_key(n) ==> m.raft_ids[n] != m.raft_id_counter + 1,
{
}

/// A batch is atomic: it is refused as a whole, or every block has the extent
/// version of the last entry for it, and every other block the one it had.
pub proof fn batch_is_atomic(m: MetadataModel, mappings: Vec<ExtentMappingEntry>)
    requires
        m.wf(),
    ensures
        ({
            let (after, answer) = m.apply(
                MetadataRequest::CommitExtentMappingBatch { mappings },
            );
            ||| answer is Error && after == m
            ||| answer == Answer::Epoch(m.epoch) && forall|v: u128, s: u64| #[trigger]
                after.version_at(v, s) == batch_version(m, mappings@, v, s)
        }),
{
    if m.commit_batch(mappings@) is Ok {
        lemma_batch_state(m, mappings@);
    }
}

/// A commit that is not refused is answered with the current epoch, and its mapping is
/// then found under its first block, by its extent version and by its operation.
pub proof fn accepted_commit_is_found(m: MetadataModel, req: MetadataRequest)
    requires
        m.wf(),
        req is CommitExtentMapping,
        !(m.apply(req).1 is Error),
    ensures
        ({
            let after = m.apply(req).0;
            let v = req->CommitExtentMapping_volume_id.value;
            let s = req->CommitExtentMapping_block_range.start;
            &&& m.apply(req).1 == Answer::Epoch(m.epoch)
            &&& after.has_mapping(v, s)
            &&& after.mappings[v][s].extent_id == req->CommitExtentMapping_extent_id
            &&& after.mappings[v][s].epoch == m.epoch
            &&& after.lookup_version(req->CommitExtentMapping_extent_version) == Some(
                after.mappings[v][s],
            )
            &&& req->CommitExtentMapping_operation_id matches Some(op) ==> after.lookup_operation(
                op,
            ) == Some(after.mappings[v][s])
        }),
{
}

/// Only commits and the deletion of a volume change what lookups find.
pub proof fn lookups_change_by_commits_and_deletions(
    m: MetadataModel,
    req: MetadataRequest,
    op: OperationId,
    version: u64,
)
    requires
        m.wf(),
        !(req is CommitExtentMapping),
        !(req is CommitExtentMappingBatch),
        !(req is DeleteVolume),
    ensures
        m.apply(req).0.lookup_operation(op) == m.lookup_operation(op),
        m.apply(req).0.lookup_version(version) == m.lookup_version(version),
{
    let after = m.apply(req).0;
    assert forall|v: u128, s: u64| #[trigger] m.has_mapping(v, s) implies after.has_mapping(v, s)
        && after.mappings[v][s] == m.mappings[v][s] by {
        assert(m.mappings.contains_key(v));
    }
    if m.operation_index.contains_key(op.value) {
        let (v, s) = m.operation_index[op.value];
        assert(m.has_mapping(v, s));
    }
    if m.version_index.contains_key(version) {
        let (v, s) = m.version_index[version];
        assert(m.has_mapping(v, s));
    }
}

/// A commit elsewhere leaves a mapping found by its operation, as long as neither what is
/// committed nor what it replaces carries the same operation.
pub proof fn commits_elsewhere_keep_an_operation(
    m: MetadataModel,
    op: OperationId,
    volume_id: VolumeId,
    mapping: MappingModel,
)
    requires
        m.wf(),
        m.volumes.contains_key(volume_id.value),
        m.lookup_operation(op) is Some,
        m.operation_index[op.value] != (volume_id.value, mapping.block_range.start),
        mapping.operation_id != Some(op),
        m.has_mapping(volume_id.value, mapping.block_range.start) ==> m.mappings[volume_id.value][mapping.block_range.start].operation_id
            != Some(op),
    ensures
        m.commit(volume_id, mapping).lookup_operation(op) == m.lookup_operation(op),
{
    let (v, s) = m.operation_index[op.value];
    assert(m.has_mapping(v, s));
    let after = m.commit(volume_id, mapping);
    if m.has_mapping(volume_id.value, mapping.block_range.start) {
        let replaced = m.mappings[volume_id.value][mapping.block_range.start];
        if replaced.operation_id is Some {
            assert(replaced.operation_id->0 != op);
            assert(replaced.operation_id->0.value != op.value);
        }
    }
    if mapping.operation_id is Some {
        assert(mapping.operation_id->0.value != op.value);
    }
    assert(after.operation_index.contains_key(op.value));
    assert(after.operation_index[op.value] == (v, s));
    assert(after.has_mapping(v, s));
    assert(after.mappings[v][s] == m.mappings[v][s]);
}

/// Every request is answered in its own kind: a change is done or refused, a new epoch or a
/// commit is answered with the epoch or refused, a lease request with what became of the
/// lease, and the registration of a node with its number.
pub proof fn answers_fit_their_requests(m: MetadataModel, req: MetadataRequest)
    ensures
        ({
            let answer = m.apply(req).1;
            match req {
                MetadataRequest::AdvanceEpoch => answer is Epoch,
                MetadataRequest::CommitExtentMapping { .. } => answer is Epoch || answer is Error,
                MetadataRequest::CommitExtentMappingBatch { .. } => answer is Epoch
                    || answer is Error,
                MetadataRequest::Lease(_) => answer is Lease,
                MetadataRequest::RegisterNode { .. } => answer is NodeRegistered,
                MetadataRequest::RegisterDisk { .. } => answer is DiskRegistered,
                MetadataRequest::AddNode { .. } => answer is Done,
                MetadataRequest::UpdatePlacementMap { .. } => answer is Done,
                MetadataRequest::CleanupExpiredLeases { .. } => answer is Done,
                _ => answer is Done || answer is Error,
            }
        }),
{
}

/// The consensus numbers are exactly those from 1 up to the last that was given out, and
/// each belongs to one node.
pub proof fn consensus_numbers_are_consecutive(m: MetadataModel, raft_id: u64)
    requires
        m.wf(),
    ensures
        is_given_out(m.raft_ids, raft_id) <==> 1 <= raft_id <= m.raft_id_counter,
        forall|n: u128, k: u128|
            #![trigger m.raft_ids.contains_key(n), m.raft_ids.contains_key(k)]
            m.raft_ids.contains_key(n) && m.raft_ids.contains_key(k) && m.raft_ids[n] == raft_id
                && m.raft_ids[k] == raft_id ==> n == k,
{
    assert forall|n: u128, k: u128|
        #![trigger m.raft_ids.contains_key(n), m.raft_ids.contains_key(k)]
        m.raft_ids.contains_key(n) && m.raft_ids.contains_key(k) && m.raft_ids[n] == raft_id
            && m.raft_ids[k] == raft_id implies n == k by {
        assert(n != k ==> m.raft_ids[n] != m.raft_ids[k]);
    }
}

/// No request takes a consensus number away: not even the removal of its node, which gets
/// its number back when it registers again; registering brings the address up to date.
pub proof fn consensus_numbers_are_kept(m: MetadataModel, req: MetadataRequest, node: u128)
    requires
        m.wf(),
        m.fits(req),
    ensures
        m.raft_ids.contains_key(node) ==> m.apply(req).0.raft_ids.contains_key(node)
            && m.apply(req).0.raft_ids[node] == m.raft_ids[node],
        m.raft_id_counter <= m.apply(req).0.raft_id_counter,
        req matches MetadataRequest::RegisterNode { node_id, addr } ==> {
            let after = m.apply(req).0;
            let known = m.raft_ids.contains_key(node_id.value);
            &&& after.nodes.contains_key(node_id.value)
            &&& after.nodes[node_id.value].addr == addr@
            &&& m.apply(req).1 == Answer::NodeRegistered(after.raft_ids[node_id.value])
            &&& known ==> after.raft_id_counter == m.raft_id_counter
            &&& !known ==> after.raft_ids[node_id.value] == m.raft_id_counter + 1
                && after.raft_id_counter == m.raft_id_counter + 1
        },
{
    if let MetadataRequest::CommitExtentMappingBatch { mappings } = req {
        lemma_batch_keeps_numbers(m, mappings@);
    }
}

proof fn lemma_batch_keeps_numbers(m: MetadataModel, entries: Seq<ExtentMappingEntry>)
    ensures
        m.commit_batch(entries) matches Ok(after) ==> after.raft_ids == m.raft_ids
            && after.raft_id_counter == m.raft_id_counter,
    decreases entries.len(),
{
    if entries.len() > 0 {
        lemma_batch_keeps_numbers(m, entries.drop_last());
    }
}

/// Whether a block holds the only mapping with an extent version, and the version is
/// found there.
pub open spec fn alone_with_version(m: MetadataModel, version: u64, volume: u128, start: u64) -> bool {
    &&& m.has_mapping(volume, start)
    &&& m.version_index.contains_key(version)
    &&& m.version_index[version] == (volume, start)
    &&& forall|w: u128, t: u64| #[trigger]
        m.has_mapping(w, t) && m.mappings[w][t].extent_version == version ==> w == volume && t
            == start
}

/// Whether a request is to commit a mapping with an extent version.
pub open spec fn carries_version(req: MetadataRequest, version: u64) -> bool {
    match req {
        MetadataRequest::CommitExtentMapping { extent_version, .. } => extent_version == version,
        MetadataRequest::CommitExtentMappingBatch { mappings } => exists|i: int|
            0 <= i < mappings@.len() && (#[trigger] mappings@[i]).extent_version == version,
        _ => false,
    }
}

/// Whether a request is to replace the mapping at a block or to delete its volume.
pub open spec fn takes_block(req: MetadataRequest, volume: u128, start: u64) -> bool {
    match req {
        MetadataRequest::CommitExtentMapping { volume_id, block_range, .. } => volume_id.value
            == volume && block_range.start == start,
        MetadataRequest::CommitExtentMappingBatch { mappings } => exists|i: int|
            0 <= i < mappings@.len() && (#[trigger] mappings@[i]).volume_id.value == volume
                && mappings@[i].block_range.start == start,
        MetadataRequest::DeleteVolume { volume_id } => volume_id.value == volume,
        _ => false,
    }
}

/// Whether a request is refused, or neither commits an extent version again nor takes the
/// block that holds it.
pub open spec fn leaves_version(
    m: MetadataModel,
    req: MetadataRequest,
    version: u64,
    volume: u128,
    start: u64,
) -> bool {
    m.apply(req).0 == m || !carries_version(req, version) && !takes_block(req, volume, start)
}

proof fn lemma_commit_leaves_version(
    m: MetadataModel,
    volume_id: VolumeId,
    mapping: MappingModel,
    version: u64,
    volume: u128,
    start: u64,
)
    requires
        m.mappings.contains_key(volume_id.value),
        alone_with_version(m, version, volume, start),
        mapping.extent_version != version,
        volume_id.value != volume || mapping.block_range.start != start,
    ensures
        alone_with_version(m.commit(volume_id, mapping), version, volume, start),
        m.commit(volume_id, mapping).mappings[volume][start] == m.mappings[volume][start],
{
    let v = volume_id.value;
    let s = mapping.block_range.start;
    let after = m.commit(volume_id, mapping);
    if m.has_mapping(v, s) {
        assert(m.mappings[v][s].extent_version != version);
    }
    assert forall|w: u128, t: u64| #[trigger]
        after.has_mapping(w, t) && after.mappings[w][t].extent_version == version implies w
        == volume && t == start by {
        if !(w == v && t == s) {
            assert(m.has_mapping(w, t));
        }
    }
}

proof fn lemma_batch_leaves_version(
    m: MetadataModel,
    entries: Seq<ExtentMappingEntry>,
    version: u64,
    volume: u128,
    start: u64,
)
    requires
        m.has_tables(),
        m.commit_batch(entries) is Ok,
        alone_with_version(m, version, volume, start),
        forall|i: int|
            0 <= i < entries.len() ==> {
                &&& (#[trigger] entries[i]).extent_version != version
                &&& entries[i].volume_id.value != volume || entries[i].block_range.start != start
            },
    ensures
        alone_with_version(m.commit_batch(entries)->Ok_0, version, volume, start),
        (m.commit_batch(entries)->Ok_0).mappings[volume][start] == m.mappings[volume][start],
    decreases entries.len(),
{
    if entries.len() > 0 {
        let front = entries.drop_last();
        assert forall|i: int| 0 <= i < front.len() implies {
            &&& (#[trigger] front[i]).extent_version != version
            &&& front[i].volume_id.value != volume || front[i].block_range.start != start
        } by {
            assert(front[i] == entries[i]);
        }
        lemma_batch_leaves_version(m, front, version, volume, start);
        lemma_batch_state(m, front);
        let mid = m.commit_batch(front)->Ok_0;
        let e = entries[entries.len() - 1];
        assert(m.volumes.contains_key(e.volume_id.value));
        assert(m.mappings.dom().contains(e.volume_id.value));
        assert(mid.mappings.contains_key(e.volume_id.value));
        lemma_commit_leaves_version(mid, e.volume_id, entry_mapping(e), version, volume, start);
    }
}

/// An extent version that one mapping has stays found, with that mapping unchanged,
/// through every request that is refused, or does not commit the version again, replace
/// its mapping or delete its volume.
pub proof fn version_stays_found(
    m: MetadataModel,
    req: MetadataRequest,
    version: u64,
    volume: u128,
    start: u64,
)
    requires
        m.wf(),
        alone_with_version(m, version, volume, start),
        leaves_version(m, req, version, volume, start),
    ensures
        alone_with_version(m.apply(req).0, version, volume, start),
        m.apply(req).0.mappings[volume][start] == m.mappings[volume][start],
        m.apply(req).0.lookup_version(version) == m.lookup_version(version),
{
    let after = m.apply(req).0;
    assert(m.mappings.contains_key(volume));
    if after != m {
        match req {
            MetadataRequest::CommitExtentMapping {
                volume_id,
                block_range,
                extent_id,
                extent_version,
                epoch,
                replica_locations,
                checksums,
                operation_id,
                previous_version,
            } => {
                if m.commit_fault(volume_id, block_range.start, epoch, previous_version) is None {
                    assert(m.mappings.dom().contains(volume_id.value));
                    lemma_commit_leaves_version(
                        m,
                        volume_id,
                        MappingModel {
                            extent_id,
                            extent_version,
                            epoch,
                            block_range,
                            replica_locations: replica_locations@,
                            checksums: crate::collections::byte_views(checksums@),
                            operation_id,
                        },
                        version,
                        volume,
                        start,
                    );
                }
            },
            MetadataRequest::CommitExtentMappingBatch { mappings } => {
                if m.commit_batch(mappings@) is Ok {
                    assert forall|v: u128| #[trigger] m.volumes.contains_key(v) implies m.mappings.contains_key(
                        v,
                    ) by {
                        assert(m.mappings.dom().contains(v));
                    }
                    lemma_batch_leaves_version(m, mappings@, version, volume, start);
                }
            },
            MetadataRequest::DeleteVolume { volume_id } => {
                let v = volume_id.value;
                if m.volumes.contains_key(v) {
                    assert(!m.versions_of(v).contains(version)) by {
                        if m.versions_of(v).contains(version) {
                            let s = choose|s: u64| #[trigger]
                                m.has_mapping(v, s) && m.mappings[v][s].extent_version == version;
                            assert(m.has_mapping(v, s));
                        }
                    }
                    assert forall|w: u128, t: u64| #[trigger]
                        after.has_mapping(w, t) && after.mappings[w][t].extent_version
                            == version implies w == volume && t == start by {
                        assert(m.has_mapping(w, t));
                    }
                }
            },
            _ => {
                assert forall|w: u128, t: u64| #[trigger] after.has_mapping(w, t) implies m.has_mapping(
                    w,
                    t,
                ) && after.mappings[w][t] == m.mappings[w][t] by {}
                assert(after.has_mapping(volume, start));
            },
        }
    }
}

/// Whether a request commits an extent version once, at a block: of a batch one mapping
/// has the version, and none that follows it is at its block.
pub open spec fn commits_once(req: MetadataRequest, version: u64, volume: u128, start: u64) -> bool {
    match req {
        MetadataRequest::CommitExtentMapping {
            volume_id,
            block_range,
            extent_version,
            ..
        } => extent_version == version && volume_id.value == volume && block_range.start == start,
        MetadataRequest::CommitExtentMappingBatch { mappings } => exists|i: int|
            #[trigger] entry_commits_once(mappings@, i, version, volume, start),
        _ => false,
    }
}

/// Whether one mapping of a batch has an extent version, at a block that none after it is
/// at.
pub open spec fn entry_commits_once(
    entries: Seq<ExtentMappingEntry>,
    i: int,
    version: u64,
    volume: u128,
    start: u64,
) -> bool {
    &&& 0 <= i < entries.len()
    &&& entries[i].extent_version == version
    &&& entries[i].volume_id.value == volume
    &&& entries[i].block_range.start == start
    &&& forall|j: int|
        0 <= j < entries.len() && j != i ==> (#[trigger] entries[j]).extent_version != version
    &&& forall|j: int|
        i < j < entries.len() ==> (#[trigger] entries[j]).volume_id.value != volume
            || entries[j].block_range.start != start
}

proof fn lemma_new_version_is_alone(m: MetadataModel, volume_id: VolumeId, mapping: MappingModel)
    requires
        m.mappings.contains_key(volume_id.value),
        lacks_version(m, mapping.extent_version),
    ensures
        alone_with_version(
            m.commit(volume_id, mapping),
            mapping.extent_version,
            volume_id.value,
            mapping.block_range.start,
        ),
{
    let after = m.commit(volume_id, mapping);
    assert forall|w: u128, t: u64| #[trigger]
        after.has_mapping(w, t) && after.mappings[w][t].extent_version
            == mapping.extent_version implies w == volume_id.value && t
        == mapping.block_range.start by {
        if !(w == volume_id.value && t == mapping.block_range.start) {
            assert(m.has_mapping(w, t));
        }
    }
}

proof fn lemma_batch_commits_once(
    m: MetadataModel,
    entries: Seq<ExtentMappingEntry>,
    i: int,
    version: u64,
    volume: u128,
    start: u64,
)
    requires
        m.has_tables(),
        m.commit_batch(entries) is Ok,
        lacks_version(m, version),
        entry_commits_once(entries, i, version, volume, start),
    ensures
        alone_with_version(m.commit_batch(entries)->Ok_0, version, volume, start),
    decreases entries.len(),
{
    let front = entries.drop_last();
    let last = entries.len() - 1;
    let e = entries[last];
    let mid = m.commit_batch(front)->Ok_0;
    lemma_batch_state(m, front);
    assert(m.volumes.contains_key(e.volume_id.value));
    assert(m.mappings.dom().contains(e.volume_id.value));
    assert(mid.mappings.contains_key(e.volume_id.value));
    assert forall|j: int| 0 <= j < front.len() implies front[j] == #[trigger] entries[j] by {}
    if i == last {
        assert forall|j: int| 0 <= j < front.len() implies (#[trigger] front[j]).extent_version
            != version by {
            assert(front[j] == entries[j]);
        }
        lemma_batch_lacks_version(m, front, version);
        lemma_new_version_is_alone(mid, e.volume_id, entry_mapping(e));
    } else {
        assert(entry_commits_once(front, i, version, volume, start)) by {
            assert(front[i] == entries[i]);
            assert forall|j: int| 0 <= j < front.len() && j != i implies (
            #[trigger] front[j]).extent_version != version by {
                assert(front[j] == entries[j]);
            }
            assert forall|j: int| i < j < front.len() implies (#[trigger] front[j]).volume_id.value
                != volume || front[j].block_range.start != start by {
                assert(front[j] == entries[j]);
            }
        }
        lemma_batch_commits_once(m, front, i, version, volume, start);
        lemma_commit_leaves_version(mid, e.volume_id, entry_mapping(e), version, volume, start);
    }
}

/// A commit of an extent version that no mapping has leaves its block alone with it.
pub proof fn new_version_is_alone(
    m: MetadataModel,
    req: MetadataRequest,
    version: u64,
    volume: u128,
    start: u64,
)
    requires
        m.wf(),
        lacks_version(m, version),
        commits_once(req, version, volume, start),
        !(m.apply(req).1 is Error),
    ensures
        alone_with_version(m.apply(req).0, version, volume, start),
{
    match req {
        MetadataRequest::CommitExtentMapping {
            volume_id,
            block_range,
            extent_id,
            extent_version,
            epoch,
            replica_locations,
            checksums,
            operation_id,
            previous_version,
        } => {
            assert(m.mappings.dom().contains(volume_id.value));
            lemma_new_version_is_alone(
                m,
                volume_id,
                MappingModel {
                    extent_id,
                    extent_version,
                    epoch,
                    block_range,
                    replica_locations: replica_locations@,
                    checksums: crate::collections::byte_views(checksums@),
                    operation_id,
                },
            );
        },
        MetadataRequest::CommitExtentMappingBatch { mappings } => {
            let i = choose|i: int| #[trigger]
                entry_commits_once(mappings@, i, version, volume, start);
            lemma_batch_commits_once(m, mappings@, i, version, volume, start);
        },
        _ => {},
    }
}

/// The state after several requests.
pub open spec fn applied_all(m: MetadataModel, reqs: Seq<MetadataRequest>) -> MetadataModel
    decreases reqs.len(),
{
    if reqs.len() == 0 {
        m
    } else {
        applied_all(m, reqs.drop_last()).apply(reqs.last()).0
    }
}

/// Whether the numbers that several requests make fit, one after another.
pub open spec fn all_fit(m: MetadataModel, reqs: Seq<MetadataRequest>) -> bool
    decreases reqs.len(),
{
    reqs.len() > 0 ==> all_fit(m, reqs.drop_last()) && applied_all(m, reqs.drop_last()).fits(
        reqs.last(),
    )
}

/// Every state that requests lead to from that of a new cluster is well formed.
pub proof fn reached_states_are_wf(reqs: Seq<MetadataRequest>)
    requires
        all_fit(MetadataModel::initial(), reqs),
    ensures
        applied_all(MetadataModel::initial(), reqs).wf(),
    decreases reqs.len(),
{
    if reqs.len() == 0 {
        initial_is_wf();
    } else {
        reached_states_are_wf(reqs.drop_last());
        apply_keeps_wf(applied_all(MetadataModel::initial(), reqs.drop_last()), reqs.last());
    }
}

proof fn lemma_lease_counter_through_all(m: MetadataModel, reqs: Seq<MetadataRequest>)
    requires
        m.wf(),
        all_fit(m, reqs),
    ensures
        applied_all(m, reqs).wf(),
        m.lease_version_counter <= applied_all(m, reqs).lease_version_counter,
    decreases reqs.len(),
{
    if reqs.len() > 0 {
        let front = reqs.drop_last();
        lemma_lease_counter_through_all(m, front);
        apply_keeps_wf(applied_all(m, front), reqs.last());
        lease_counter_is_monotonic(applied_all(m, front), reqs.last());
    }
}

/// No lease version is given out twice, on whatever volumes, and each is above those given
/// out before it, whatever requests come in between: not even a release, the expiry of a
/// lease or the deletion of its volume brings a version back.
pub proof fn lease_versions_are_never_reused(
    m: MetadataModel,
    first: LeaseRequest,
    between: Seq<MetadataRequest>,
    second: LeaseRequest,
)
    requires
        m.wf(),
        m.lease_fits(first),
        all_fit(m.apply_lease(first).0, between),
        applied_all(m.apply_lease(first).0, between).lease_fits(second),
    ensures
        ({
            let one = version_handed_out(m.apply_lease(first).1);
            let other = version_handed_out(
                applied_all(m.apply_lease(first).0, between).apply_lease(second).1,
            );
            one is Some && other is Some ==> one->0 < other->0
        }),
{
    let after = m.apply_lease(first).0;
    apply_keeps_wf(m, MetadataRequest::Lease(first));
    assert(m.apply(MetadataRequest::Lease(first)).0 == after);
    lease_versions_grow(m, first);
    lemma_lease_counter_through_all(after, between);
    lease_versions_grow(applied_all(after, between), second);
}

/// However many requests follow, a version that one mapping has is found until that mapping
/// is replaced or its volume deleted.
pub proof fn version_stays_found_through_all(
    m: MetadataModel,
    reqs: Seq<MetadataRequest>,
    version: u64,
    volume: u128,
    start: u64,
)
    requires
        m.wf(),
        all_fit(m, reqs),
        alone_with_version(m, version, volume, start),
        forall|i: int|
            0 <= i < reqs.len() ==> leaves_version(
                applied_all(m, reqs.take(i)),
                #[trigger] reqs[i],
                version,
                volume,
                start,
            ),
    ensures
        applied_all(m, reqs).wf(),
        alone_with_version(applied_all(m, reqs), version, volume, start),
        applied_all(m, reqs).lookup_version(version) == Some(m.mappings[volume][start]),
        applied_all(m, reqs).mappings[volume][start] == m.mappings[volume][start],
    decreases reqs.len(),
{
    if reqs.len() > 0 {
        let front = reqs.drop_last();
        assert forall|i: int| 0 <= i < front.len() implies leaves_version(
            applied_all(m, front.take(i)),
            #[trigger] front[i],
            version,
            volume,
            start,
        ) by {
            assert(front[i] == reqs[i]);
            assert(front.take(i) =~= reqs.take(i));
        }
        version_stays_found_through_all(m, front, version, volume, start);
        let mid = applied_all(m, front);
        assert(reqs.take(reqs.len() - 1) =~= front);
        assert(leaves_version(mid, reqs[reqs.len() - 1], version, volume, start));
        apply_keeps_wf(mid, reqs.last());
        version_stays_found(mid, reqs.last(), version, volume, start);
    }
}

/// Whether no mapping has an extent version.
pub open spec fn lacks_version(m: MetadataModel, version: u64) -> bool {
    forall|w: u128, t: u64| #[trigger]
        m.has_mapping(w, t) ==> m.mappings[w][t].extent_version != version
}

proof fn lemma_batch_lacks_version(m: MetadataModel, entries: Seq<ExtentMappingEntry>, version: u64)
    requires
        m.has_tables(),
        m.commit_batch(entries) is Ok,
        lacks_version(m, version),
        forall|i: int| 0 <= i < entries.len() ==> (#[trigger] entries[i]).extent_version != version,
    ensures
        lacks_version(m.commit_batch(entries)->Ok_0, version),
    decreases entries.len(),
{
    if entries.len() > 0 {
        let front = entries.drop_last();
        assert forall|i: int| 0 <= i < front.len() implies (#[trigger] front[i]).extent_version
            != version by {
            assert(front[i] == entries[i]);
        }
        lemma_batch_lacks_version(m, front, version);
        let mid = m.commit_batch(front)->Ok_0;
        let after = m.commit_batch(entries)->Ok_0;
        let e = entries[entries.len() - 1];
        lemma_batch_state(m, front);
        assert(m.volumes.contains_key(e.volume_id.value));
        assert(m.mappings.dom().contains(e.volume_id.value));
        assert(mid.mappings.contains_key(e.volume_id.value));
        assert(after == mid.commit(e.volume_id, entry_mapping(e)));
        assert forall|w: u128, t: u64| #[trigger] after.has_mapping(w, t) implies after.mappings[w][t].extent_version
            != version by {
            if !(w == e.volume_id.value && t == e.block_range.start) {
                assert(mid.has_mapping(w, t));
            }
        }
    }
}

/// A version comes into a state only by a commit of it.
pub proof fn versions_come_by_commits(m: MetadataModel, req: MetadataRequest, version: u64)
    requires
        m.wf(),
        lacks_version(m, version),
        m.apply(req).0 == m || !carries_version(req, version),
    ensures
        lacks_version(m.apply(req).0, version),
{
    let after = m.apply(req).0;
    if after != m {
        match req {
            MetadataRequest::CommitExtentMapping { volume_id, block_range, .. } => {
                assert forall|w: u128, t: u64| #[trigger]
                    after.has_mapping(w, t) implies after.mappings[w][t].extent_version
                    != version by {
                    if !(w == volume_id.value && t == block_range.start) {
                        assert(m.has_mapping(w, t));
                    }
                }
            },
            MetadataRequest::CommitExtentMappingBatch { mappings } => {
                if m.commit_batch(mappings@) is Ok {
                    lemma_batch_lacks_version(m, mappings@, version);
                }
            },
            _ => {
                assert forall|w: u128, t: u64| #[trigger]
                    after.has_mapping(w, t) implies after.mappings[w][t].extent_version
                    != version by {
                    assert(m.has_mapping(w, t));
                }
            },
        }
    }
}

proof fn lemma_history_lacks_version(reqs: Seq<MetadataRequest>, version: u64)
    requires
        all_fit(MetadataModel::initial(), reqs),
        forall|i: int|
            0 <= i < reqs.len() ==> {
                let m = applied_all(MetadataModel::initial(), reqs.take(i));
                m.apply(#[trigger] reqs[i]).0 == m || !carries_version(reqs[i], version)
            },
    ensures
        lacks_version(applied_all(MetadataModel::initial(), reqs), version),
    decreases reqs.len(),
{
    if reqs.len() > 0 {
        let front = reqs.drop_last();
        assert forall|i: int| 0 <= i < front.len() implies {
            let m = applied_all(MetadataModel::initial(), front.take(i));
            m.apply(#[trigger] front[i]).0 == m || !carries_version(front[i], version)
        } by {
            assert(front[i] == reqs[i]);
            assert(front.take(i) =~= reqs.take(i));
        }
        lemma_history_lacks_version(front, version);
        reached_states_are_wf(front);
        assert(reqs.take(reqs.len() - 1) =~= front);
        assert(reqs[reqs.len() - 1] == reqs.last());
        versions_come_by_commits(
            applied_all(MetadataModel::initial(), front),
            reqs.last(),
            version,
        );
    }
}

/// An extent version that was committed exactly once since the cluster began, and whose
/// mapping was neither replaced nor deleted with its volume, is found with that mapping.
pub proof fn version_committed_once_is_found(
    before: Seq<MetadataRequest>,
    req: MetadataRequest,
    after: Seq<MetadataRequest>,
    version: u64,
    volume: u128,
    start: u64,
)
    requires
        ({
            let m = applied_all(MetadataModel::initial(), before);
            let committed = m.apply(req).0;
            &&& all_fit(MetadataModel::initial(), before)
            &&& forall|i: int|
                0 <= i < before.len() ==> {
                    let earlier = applied_all(MetadataModel::initial(), before.take(i));
                    earlier.apply(#[trigger] before[i]).0 == earlier || !carries_version(
                        before[i],
                        version,
                    )
                }
            &&& commits_once(req, version, volume, start)
            &&& !(m.apply(req).1 is Error)
            &&& all_fit(committed, after)
            &&& forall|i: int|
                0 <= i < after.len() ==> leaves_version(
                    applied_all(committed, after.take(i)),
                    #[trigger] after[i],
                    version,
                    volume,
                    start,
                )
        }),
    ensures
        ({
            let committed = applied_all(MetadataModel::initial(), before).apply(req).0;
            &&& committed.has_mapping(volume, start)
            &&& committed.mappings[volume][start].extent_version == version
            &&& applied_all(committed, after).lookup_version(version) == Some(
                committed.mappings[volume][start],
            )
        }),
{
    let m = applied_all(MetadataModel::initial(), before);
    reached_states_are_wf(before);
    lemma_history_lacks_version(before, version);
    new_version_is_alone(m, req, version, volume, start);
    apply_keeps_wf(m, req);
    version_stays_found_through_all(m.apply(req).0, after, version, volume, start);
}

} // verus!
