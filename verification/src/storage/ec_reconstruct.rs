//! Planning of the reconstruction of erasure-coded extents.

use crate::storage::ec_placement::{ChunkLocation, EcPlacement};
use crate::storage::erasure::{
    chunk_len, joined, padded, part_of, present_count, rs_rebuilt, shard_views, size_fault,
    ErasureCodec, ErasureError,
};
use crate::text::decimal;
use crate::types::RaftNodeId;
use vstd::prelude::*;

verus! {

/// A reconstruction plan describing which chunks are available, which are
/// missing, and whether reconstruction is possible.
#[derive(Clone, Debug)]
pub struct ReconstructionPlan {
    /// Extent this plan is for.
    pub extent_id: u64,
    /// Chunks that are still available: (chunk_index, node_id).
    pub available_chunks: Vec<(usize, RaftNodeId)>,
    /// Chunks that are missing due to failed nodes: (chunk_index, node_id).
    pub missing_chunks: Vec<(usize, RaftNodeId)>,
    /// Whether reconstruction is possible (i.e., at least k chunks remain).
    pub can_reconstruct: bool,
}

/// Index and node of the chunks whose node is among the failed ones, or of the others,
/// in order.
pub open spec fn chunks_on(
    chunks: Seq<ChunkLocation>,
    failed: Seq<RaftNodeId>,
    on_failed: bool,
) -> Seq<(usize, RaftNodeId)>
    decreases chunks.len(),
{
    if chunks.len() == 0 {
        Seq::empty()
    } else {
        let front = chunks_on(chunks.drop_last(), failed, on_failed);
        let c = chunks.last();
        if failed.contains(c.node_id) == on_failed {
            front.push((c.chunk_index, c.node_id))
        } else {
            front
        }
    }
}

/// The number of data chunks.
pub open spec fn data_chunk_count(chunks: Seq<ChunkLocation>) -> nat
    decreases chunks.len(),
{
    if chunks.len() == 0 {
        0
    } else {
        data_chunk_count(chunks.drop_last()) + (if chunks.last().is_parity {
            0nat
        } else {
            1nat
        })
    }
}

/// Whether no two chunks stand on one node.
pub open spec fn chunk_nodes_distinct(chunks: Seq<ChunkLocation>) -> bool {
    forall|i: int, j: int|
        0 <= i < j < chunks.len() ==> (#[trigger] chunks[i]).node_id != (#[trigger] chunks[j]).node_id
}

/// Every chunk is available or missing.
pub proof fn chunks_are_available_or_missing(chunks: Seq<ChunkLocation>, failed: Seq<RaftNodeId>)
    ensures
        chunks_on(chunks, failed, true).len() + chunks_on(chunks, failed, false).len()
            == chunks.len(),
    decreases chunks.len(),
{
    if chunks.len() > 0 {
        chunks_are_available_or_missing(chunks.drop_last(), failed);
    }
}

proof fn lemma_missing_nodes(chunks: Seq<ChunkLocation>, failed: Seq<RaftNodeId>)
    requires
        chunk_nodes_distinct(chunks),
    ensures
        ({
            let nodes = chunks_on(chunks, failed, true).map_values(|c: (usize, RaftNodeId)| c.1);
            &&& nodes.no_duplicates()
            &&& forall|n: RaftNodeId| #[trigger]
                nodes.contains(n) ==> failed.contains(n) && exists|i: int|
                    0 <= i < chunks.len() && (#[trigger] chunks[i]).node_id == n
        }),
    decreases chunks.len(),
{
    let second = |c: (usize, RaftNodeId)| c.1;
    if chunks.len() > 0 {
        let front = chunks.drop_last();
        let last = chunks.last();
        assert forall|i: int, j: int| 0 <= i < j < front.len() implies (
        #[trigger] front[i]).node_id != (#[trigger] front[j]).node_id by {
            assert(front[i] == chunks[i] && front[j] == chunks[j]);
        }
        lemma_missing_nodes(front, failed);
        let before = chunks_on(front, failed, true).map_values(second);
        let after = chunks_on(chunks, failed, true).map_values(second);
        assert(chunks[chunks.len() - 1] == last);
        if failed.contains(last.node_id) {
            assert(after =~= before.push(last.node_id));
            if before.contains(last.node_id) {
                let i = choose|i: int|
                    0 <= i < front.len() && (#[trigger] front[i]).node_id == last.node_id;
                assert(chunks[i].node_id != chunks[chunks.len() - 1].node_id);
                assert(false);
            }
        } else {
            assert(after =~= before);
        }
        assert forall|n: RaftNodeId| #[trigger] after.contains(n) implies failed.contains(n)
            && exists|i: int| 0 <= i < chunks.len() && (#[trigger] chunks[i]).node_id == n by {
            let x = choose|x: int| 0 <= x < after.len() && after[x] == n;
            if x < before.len() {
                assert(before[x] == n);
                assert(before.contains(n));
                let i = choose|i: int| 0 <= i < front.len() && (#[trigger] front[i]).node_id == n;
                assert(chunks[i].node_id == n);
            }
        }
    } else {
        assert(chunks_on(chunks, failed, true).map_values(second) =~= Seq::empty());
    }
}

/// A placement on different nodes survives the loss of as many nodes as it has parity
/// chunks: enough chunks are left to reconstruct the extent.
pub proof fn losing_parity_many_nodes_is_survivable(
    chunks: Seq<ChunkLocation>,
    failed: Seq<RaftNodeId>,
)
    requires
        chunk_nodes_distinct(chunks),
        failed.len() <= chunks.len() - data_chunk_count(chunks),
    ensures
        chunks_on(chunks, failed, false).len() >= data_chunk_count(chunks),
{
    chunks_are_available_or_missing(chunks, failed);
    lemma_missing_nodes(chunks, failed);
    let nodes = chunks_on(chunks, failed, true).map_values(|c: (usize, RaftNodeId)| c.1);
    nodes.unique_seq_to_set();
    failed.lemma_cardinality_of_set();
    assert forall|n: RaftNodeId| #[trigger] nodes.to_set().contains(n) implies failed.to_set().contains(
        n,
    ) by {
        assert(nodes.contains(n));
    }
    vstd::set_lib::lemma_len_subset(nodes.to_set(), failed.to_set());
}

fn is_failed(failed: &[RaftNodeId], node: RaftNodeId) -> (r: bool)
    ensures
        r == failed@.contains(node),
{
    let mut i: usize = 0;
    while i < failed.len()
        invariant
            i <= failed@.len(),
            forall|j: int| 0 <= j < i ==> failed@[j] != node,
        decreases failed@.len() - i,
    {
        if failed[i] == node {
            assert(failed@[i as int] == node);
            return true;
        }
        i = i + 1;
    }
    false
}

/// Build a reconstruction plan by comparing the EC placement against a list
/// of failed nodes.
///
/// A chunk is considered "missing" if its assigned node appears in
/// `failed_nodes`.  Reconstruction is possible when the number of available
/// (non-missing) chunks is >= the number of data shards (k).
pub fn plan_reconstruction(placement: &EcPlacement, failed_nodes: &[RaftNodeId]) -> (r:
    ReconstructionPlan)
    ensures
        r.extent_id == placement.extent_id,
        r.available_chunks@ == chunks_on(placement.chunks@, failed_nodes@, false),
        r.missing_chunks@ == chunks_on(placement.chunks@, failed_nodes@, true),
        r.can_reconstruct == (r.available_chunks@.len() >= data_chunk_count(placement.chunks@)),
{
    let chunks = &placement.chunks;
    let mut available: Vec<(usize, RaftNodeId)> = Vec::new();
    let mut missing: Vec<(usize, RaftNodeId)> = Vec::new();
    let mut k: usize = 0;
    let mut i: usize = 0;
    while i < chunks.len()
        invariant
            i <= chunks@.len(),
            k <= i,
            available@ == chunks_on(chunks@.take(i as int), failed_nodes@, false),
            missing@ == chunks_on(chunks@.take(i as int), failed_nodes@, true),
            k == data_chunk_count(chunks@.take(i as int)),
        decreases chunks@.len() - i,
    {
        let chunk = chunks[i];
        if is_failed(failed_nodes, chunk.node_id) {
            missing.push((chunk.chunk_index, chunk.node_id));
        } else {
            available.push((chunk.chunk_index, chunk.node_id));
        }
        if !chunk.is_parity {
            k = k + 1;
        }
        i = i + 1;
        assert(chunks@.take(i as int).drop_last() =~= chunks@.take(i - 1));
    }
    assert(chunks@.take(chunks@.len() as int) =~= chunks@);
    let can_reconstruct = available.len() >= k;
    ReconstructionPlan {
        extent_id: placement.extent_id,
        available_chunks: available,
        missing_chunks: missing,
        can_reconstruct,
    }
}

/// Reconstruct original data from available chunks using the given codec: what
/// [`ErasureCodec::decode`] gives.
pub fn reconstruct(codec: &ErasureCodec, chunks: &[Option<Vec<u8>>]) -> (r: Result<
    Vec<u8>,
    ErasureError,
>)
    requires
        codec.wf(),
    ensures
        ({
            let k = codec.data_shards as nat;
            let m = codec.parity_shards as nat;
            let given = shard_views(chunks@);
            if chunks@.len() != k + m {
                r is Err && r->Err_0.says_invalid(
                    "expected "@ + decimal(k + m) + " chunks, got "@ + decimal(chunks@.len()),
                )
            } else if present_count(given) < k {
                r == Err::<Vec<u8>, ErasureError>(
                    ErasureError::InsufficientShards {
                        available: present_count(given) as usize,
                        required: codec.data_shards,
                    },
                )
            } else if size_fault(given) is Some {
                r is Err && r->Err_0.says_internal("reconstruct failed: "@ + size_fault(given)->0)
            } else {
                &&& r is Ok
                &&& r->Ok_0@ == joined(rs_rebuilt(k, m, given).take(k as int))
                &&& forall|data: Seq<u8>|
                    data.len() > 0 && part_of(given, #[trigger] codec.encoding(data)) ==> r->Ok_0@
                        == padded(data, k * chunk_len(data.len(), k))
            }
        }),
{
    codec.decode(chunks)
}

/// A chunk is missing exactly where its node is among the failed ones; each chunk is listed
/// with its own index and node, in order.
pub proof fn chunks_are_sorted_by_their_nodes(
    chunks: Seq<ChunkLocation>,
    failed: Seq<RaftNodeId>,
    on_failed: bool,
)
    ensures
        chunks_on(chunks, failed, on_failed) == chunks.filter(
            |c: ChunkLocation|
                on_failed == exists|i: int| 0 <= i < failed.len() && #[trigger] failed[i] == c.node_id,
        ).map_values(|c: ChunkLocation| (c.chunk_index, c.node_id)),
        data_chunk_count(chunks) == chunks.filter(|c: ChunkLocation| !c.is_parity).len(),
    decreases chunks.len(),
{
    reveal(Seq::filter);
    let kept = |c: ChunkLocation|
        on_failed == exists|i: int| 0 <= i < failed.len() && #[trigger] failed[i] == c.node_id;
    let place = |c: ChunkLocation| (c.chunk_index, c.node_id);
    if chunks.len() > 0 {
        let front = chunks.drop_last();
        let last = chunks.last();
        chunks_are_sorted_by_their_nodes(front, failed, on_failed);
        assert(failed.contains(last.node_id) == exists|i: int|
            0 <= i < failed.len() && #[trigger] failed[i] == last.node_id);
        let before = front.filter(kept);
        if kept(last) {
            assert(before.push(last).map_values(place) =~= before.map_values(place).push(
                place(last),
            ));
        }
    }
    assert(chunks_on(chunks, failed, on_failed) =~= chunks.filter(kept).map_values(place));
}

} // verus!
