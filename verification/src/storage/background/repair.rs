//! Repair workers for re-replication and erasure-code rebuild.
//!
//! Handles both replication repair (read healthy copy, write replacement) and
//! EC rebuild (read K fragments, reconstruct missing fragment). Queue-based
//! processing in the order of priority.

use crate::ids::{DiskId, ExtentId};
use crate::text::{decimal, decimal_text, join2, join4};
use vstd::prelude::*;

verus! {

/// Configuration for the repair worker.
#[derive(Clone, Copy, Debug, PartialEq, Eq, Structural)]
pub struct RepairConfig {
    /// Maximum concurrent repair operations.
    pub max_concurrent: usize,
    /// Tokens consumed per repair operation.
    pub tokens_per_repair: u64,
}

impl Default for RepairConfig {
    fn default() -> (r: Self)
        ensures
            r.max_concurrent == 4,
            r.tokens_per_repair == 10,
    {
        RepairConfig { max_concurrent: 4, tokens_per_repair: 10 }
    }
}

/// Type of repair to perform.
#[derive(Clone, Debug, PartialEq, Eq)]
pub enum RepairType {
    /// Replicated extent: read from healthy replica, write to new disk.
    Replication {
        /// Disk IDs that have healthy copies.
        healthy_sources: Vec<DiskId>,
    },
    /// Erasure-coded extent: read K fragments, reconstruct missing.
    ErasureCode {
        /// K (data fragments count).
        data_count: usize,
        /// M (parity fragments count).
        parity_count: usize,
        /// Available fragment indices and their source disks.
        available_fragments: Vec<(usize, DiskId)>,
        /// Original data length for decoding.
        original_data_len: usize,
    },
}

/// A request to repair an extent.
#[derive(Clone, Debug)]
pub struct RepairRequest {
    /// Extent to repair.
    pub extent_id: ExtentId,
    /// Version of the extent.
    pub version: u64,
    /// Disk where the extent should be written.
    pub target_disk_id: DiskId,
    /// Type of repair.
    pub repair_type: RepairType,
    /// Priority (lower = higher priority).
    pub priority: u32,
}

impl RepairRequest {
    /// Whether the number of fragments can be counted.
    pub open spec fn is_countable(self) -> bool {
        self.repair_type matches RepairType::ErasureCode { data_count, parity_count, .. }
            ==> data_count + parity_count <= usize::MAX
    }
}

/// Result of a single repair operation.
#[derive(Clone, Debug)]
pub struct RepairOutcome {
    /// Extent that was repaired.
    pub extent_id: ExtentId,
    /// Target disk where the repair was written.
    pub target_disk_id: DiskId,
    /// Whether the repair succeeded.
    pub success: bool,
    /// Error message if failed.
    pub error: Option<String>,
}

impl RepairOutcome {
    /// Whether the outcome is about a request; only a failure carries an error.
    pub open spec fn is_for(self, request: RepairRequest) -> bool {
        &&& self.extent_id == request.extent_id
        &&& self.target_disk_id == request.target_disk_id
        &&& self.success == (self.error is None)
    }

    /// Whether the outcome is that a request was carried out.
    pub open spec fn is_success_of(self, request: RepairRequest) -> bool {
        self.is_for(request) && self.success
    }

    /// Whether the outcome is that a request failed, with the given error.
    pub open spec fn is_failure_of(self, request: RepairRequest, error: Seq<char>) -> bool {
        self.is_for(request) && !self.success && self.error->0@ == error
    }

    /// The same outcome.
    pub fn copy(&self) -> (r: Self)
        ensures
            r == *self,
    {
        RepairOutcome {
            extent_id: self.extent_id,
            target_disk_id: self.target_disk_id,
            success: self.success,
            error: match &self.error {
                Some(e) => Some(e.clone()),
                None => None,
            },
        }
    }
}

/// A read of an extent that a reader was asked for, and what came of it.
pub ghost struct ReadCall {
    pub source_disk: DiskId,
    pub extent_id: ExtentId,
    pub version: u64,
    pub result: Result<Vec<u8>, String>,
}

/// A read of a fragment that a reader was asked for, and what came of it.
pub ghost struct FragmentCall {
    pub source_disk: DiskId,
    pub extent_id: ExtentId,
    pub fragment_index: usize,
    pub result: Result<Vec<u8>, String>,
}

/// A write that a writer was asked for, and what came of it.
pub ghost struct WriteCall {
    pub target_disk: DiskId,
    pub extent_id: ExtentId,
    pub version: u64,
    pub data: Seq<u8>,
    pub result: Result<(), String>,
}

/// A reconstruction that was asked for, and what came of it.
pub ghost struct RebuildCall {
    pub data_count: usize,
    pub parity_count: usize,
    pub fragments: Seq<Option<Vec<u8>>>,
    pub original_len: usize,
    pub result: Result<Vec<u8>, String>,
}

/// Reads extent data from a healthy source.
pub trait RepairExtentReader {
    /// The reads that were asked for so far. An implementation that is itself verified
    /// keeps this record; for any other it is what a bystander would have noted down.
    open spec fn reads(&self) -> Seq<ReadCall> {
        Seq::empty()
    }

    /// Read a full extent from a source disk.
    fn read_extent(
        &mut self,
        source_disk: DiskId,
        extent_id: ExtentId,
        version: u64,
    ) -> (r: Result<Vec<u8>, String>)
        ensures
            final(self).reads() == old(self).reads().push(
                (ReadCall { source_disk, extent_id, version, result: r }),
            ),
    ;
}

/// Reads EC fragments from source disks.
pub trait FragmentReader {
    /// The reads that were asked for so far. An implementation that is itself verified
    /// keeps this record; for any other it is what a bystander would have noted down.
    open spec fn fragment_reads(&self) -> Seq<FragmentCall> {
        Seq::empty()
    }

    /// Read a single fragment from a source disk.
    fn read_fragment(
        &mut self,
        source_disk: DiskId,
        extent_id: ExtentId,
        fragment_index: usize,
    ) -> (r: Result<Vec<u8>, String>)
        ensures
            final(self).fragment_reads() == old(self).fragment_reads().push(
                (FragmentCall { source_disk, extent_id, fragment_index, result: r }),
            ),
    ;
}

/// Writes repaired extent data to a target disk.
pub trait RepairExtentWriter {
    /// The writes that were asked for so far. An implementation that is itself verified
    /// keeps this record; for any other it is what a bystander would have noted down.
    open spec fn writes(&self) -> Seq<WriteCall> {
        Seq::empty()
    }

    /// Write repaired extent data to the target disk.
    fn write_extent(
        &mut self,
        target_disk: DiskId,
        extent_id: ExtentId,
        version: u64,
        data: &[u8],
    ) -> (r: Result<(), String>)
        ensures
            final(self).writes() == old(self).writes().push(
                (WriteCall { target_disk, extent_id, version, data: data@, result: r }),
            ),
    ;
}

/// Reconstructs erasure-coded data.
pub trait EcReconstructor {
    /// The reconstructions that were asked for so far. An implementation that is itself
    /// verified keeps this record; for any other it is what a bystander would have noted
    /// down.
    open spec fn rebuilds(&self) -> Seq<RebuildCall> {
        Seq::empty()
    }

    /// Reconstruct data from available fragments.
    fn reconstruct(
        &mut self,
        data_count: usize,
        parity_count: usize,
        fragments: Vec<Option<Vec<u8>>>,
        original_len: usize,
    ) -> (r: Result<Vec<u8>, String>)
        ensures
            final(self).rebuilds() == old(self).rebuilds().push(
                (RebuildCall {
                    data_count,
                    parity_count,
                    fragments: fragments@,
                    original_len,
                    result: r,
                }),
            ),
    ;
}

/// What was asked of all that a repair works with.
pub ghost struct RepairCalls {
    pub reads: Seq<ReadCall>,
    pub fragment_reads: Seq<FragmentCall>,
    pub writes: Seq<WriteCall>,
    pub rebuilds: Seq<RebuildCall>,
}

/// What was asked of the given readers, writer and reconstructor.
pub open spec fn calls_of<
    R: RepairExtentReader,
    F: FragmentReader,
    W: RepairExtentWriter,
    E: EcReconstructor,
>(reader: R, fragment_reader: F, writer: W, reconstructor: E) -> RepairCalls {
    RepairCalls {
        reads: reader.reads(),
        fragment_reads: fragment_reader.fragment_reads(),
        writes: writer.writes(),
        rebuilds: reconstructor.rebuilds(),
    }
}

/// An attempt to copy from one source: what came of the read and, where there was
/// something to write, of the write.
pub ghost struct Attempt {
    pub read: Result<Vec<u8>, String>,
    pub written: Result<(), String>,
}

impl Attempt {
    /// Whether what was read was written.
    pub open spec fn is_good(self) -> bool {
        self.read is Ok && self.written is Ok
    }
}

/// The reads of some attempts: one from each source, in order.
pub open spec fn attempt_reads(
    request: RepairRequest,
    sources: Seq<DiskId>,
    attempts: Seq<Attempt>,
) -> Seq<ReadCall> {
    Seq::new(
        attempts.len(),
        |i: int|
            ReadCall {
                source_disk: sources[i],
                extent_id: request.extent_id,
                version: request.version,
                result: attempts[i].read,
            },
    )
}

/// A write of data for a request.
pub open spec fn write_for(
    request: RepairRequest,
    data: Seq<u8>,
    result: Result<(), String>,
) -> WriteCall {
    WriteCall {
        target_disk: request.target_disk_id,
        extent_id: request.extent_id,
        version: request.version,
        data,
        result,
    }
}

/// The writes of some attempts: what each of them read, where it could.
pub open spec fn attempt_writes(request: RepairRequest, attempts: Seq<Attempt>) -> Seq<WriteCall>
    decreases attempts.len(),
{
    if attempts.len() == 0 {
        Seq::empty()
    } else {
        let before = attempt_writes(request, attempts.drop_last());
        match attempts.last().read {
            Ok(data) => before.push(write_for(request, data@, attempts.last().written)),
            Err(_) => before,
        }
    }
}

/// Whether a repair by replication made these attempts: the sources were tried in order,
/// and no further one once an attempt was good. It succeeds exactly where the last
/// attempt was good, and fails only when all sources were tried.
pub open spec fn copied(
    request: RepairRequest,
    sources: Seq<DiskId>,
    attempts: Seq<Attempt>,
    outcome: RepairOutcome,
) -> bool {
    &&& attempts.len() <= sources.len()
    &&& forall|i: int| 0 <= i < attempts.len() - 1 ==> !(#[trigger] attempts[i]).is_good()
    &&& if attempts.len() > 0 && attempts.last().is_good() {
        outcome.is_success_of(request)
    } else {
        attempts.len() == sources.len() && outcome.is_failure_of(
            request,
            "all healthy sources failed"@,
        )
    }
}

/// The reads of the available fragments, each once and in order.
pub open spec fn gathering_reads(
    request: RepairRequest,
    available: Seq<(usize, DiskId)>,
    results: Seq<Result<Vec<u8>, String>>,
) -> Seq<FragmentCall> {
    Seq::new(
        results.len(),
        |i: int|
            FragmentCall {
                source_disk: available[i].1,
                extent_id: request.extent_id,
                fragment_index: available[i].0,
                result: results[i],
            },
    )
}

/// Whether a rebuild from fragments asked for the right things and had the right outcome.
/// With too few fragments nothing is reconstructed or written. Otherwise one
/// reconstruction is asked for, of these fragments; where it fails nothing is written, and
/// where it succeeds what it gave is written once.
pub open spec fn rebuilt(
    request: RepairRequest,
    data_count: usize,
    parity_count: usize,
    fragments: Seq<Option<Vec<u8>>>,
    original_len: usize,
    rebuilds_before: Seq<RebuildCall>,
    rebuilds: Seq<RebuildCall>,
    writes_before: Seq<WriteCall>,
    writes: Seq<WriteCall>,
    outcome: RepairOutcome,
) -> bool {
    if fragment_count(fragments) < data_count {
        &&& rebuilds == rebuilds_before
        &&& writes == writes_before
        &&& outcome.is_failure_of(
            request,
            "insufficient fragments: have "@ + decimal(fragment_count(fragments)) + ", need "@
                + decimal(data_count as nat),
        )
    } else {
        let result = rebuilds.last().result;
        let written = writes.last().result;
        &&& rebuilds == rebuilds_before.push(
            RebuildCall { data_count, parity_count, fragments, original_len, result },
        )
        &&& match result {
            Err(e) => writes == writes_before && outcome.is_failure_of(
                request,
                "EC reconstruction failed: "@ + e@,
            ),
            Ok(data) => {
                &&& writes == writes_before.push(write_for(request, data@, written))
                &&& match written {
                    Ok(_) => outcome.is_success_of(request),
                    Err(e) => outcome.is_failure_of(request, "EC repair write failed: "@ + e@),
                }
            },
        }
    }
}

/// Whether a request was carried out with an outcome, by exactly the calls that were made
/// in between.
pub open spec fn carried_out(
    request: RepairRequest,
    before: RepairCalls,
    after: RepairCalls,
    outcome: RepairOutcome,
) -> bool {
    match request.repair_type {
        RepairType::Replication { healthy_sources } => exists|attempts: Seq<Attempt>|
            {
                &&& #[trigger] copied(request, healthy_sources@, attempts, outcome)
                &&& after.reads == before.reads + attempt_reads(
                    request,
                    healthy_sources@,
                    attempts,
                )
                &&& after.writes == before.writes + attempt_writes(request, attempts)
                &&& after.fragment_reads == before.fragment_reads
                &&& after.rebuilds == before.rebuilds
            },
        RepairType::ErasureCode {
            data_count,
            parity_count,
            available_fragments,
            original_data_len,
        } => exists|results: Seq<Result<Vec<u8>, String>>|
            {
                &&& results.len() == available_fragments@.len()
                &&& after.fragment_reads == before.fragment_reads + #[trigger] gathering_reads(
                    request,
                    available_fragments@,
                    results,
                )
                &&& after.reads == before.reads
                &&& rebuilt(
                    request,
                    data_count,
                    parity_count,
                    fragments_read(
                        (data_count + parity_count) as nat,
                        available_fragments@,
                        results,
                        results.len(),
                    ),
                    original_data_len,
                    before.rebuilds,
                    after.rebuilds,
                    before.writes,
                    after.writes,
                    outcome,
                )
            },
    }
}

/// Whether requests were carried out one after another, each by the calls between two
/// successive states.
pub open spec fn all_carried_out(
    requests: Seq<RepairRequest>,
    states: Seq<RepairCalls>,
    outcomes: Seq<RepairOutcome>,
) -> bool {
    &&& outcomes.len() == requests.len()
    &&& states.len() == requests.len() + 1
    &&& forall|i: int|
        0 <= i < requests.len() ==> #[trigger] carried_out(
            requests[i],
            states[i],
            states[i + 1],
            outcomes[i],
        )
}

proof fn lemma_writes_of_good_attempt(request: RepairRequest, attempts: Seq<Attempt>)
    requires
        attempts.len() > 0,
        attempts.last().is_good(),
    ensures
        attempt_writes(request, attempts).len() > 0,
        attempt_writes(request, attempts).last() == write_for(
            request,
            attempts.last().read->Ok_0@,
            attempts.last().written,
        ),
{
}

/// A repair that succeeded has written: the last write was for the request's extent,
/// version and target, it succeeded, and what it wrote is what the last read, or the
/// reconstruction, gave.
pub proof fn success_means_written(
    request: RepairRequest,
    before: RepairCalls,
    after: RepairCalls,
    outcome: RepairOutcome,
)
    requires
        carried_out(request, before, after, outcome),
        outcome.success,
    ensures
        after.writes.len() > before.writes.len(),
        after.writes.last().result is Ok,
        after.writes.last().target_disk == request.target_disk_id,
        after.writes.last().extent_id == request.extent_id,
        after.writes.last().version == request.version,
        match request.repair_type {
            RepairType::Replication { .. } => after.reads.len() > before.reads.len() && (
            after.reads.last().result matches Ok(data) && after.writes.last().data == data@),
            RepairType::ErasureCode { .. } => after.rebuilds.len() > before.rebuilds.len() && (
            after.rebuilds.last().result matches Ok(data) && after.writes.last().data == data@),
        },
{
    match request.repair_type {
        RepairType::Replication { healthy_sources } => {
            let attempts = choose|attempts: Seq<Attempt>|
                {
                    &&& #[trigger] copied(request, healthy_sources@, attempts, outcome)
                    &&& after.reads == before.reads + attempt_reads(
                        request,
                        healthy_sources@,
                        attempts,
                    )
                    &&& after.writes == before.writes + attempt_writes(request, attempts)
                };
            lemma_writes_of_good_attempt(request, attempts);
            assert(after.writes.last() == attempt_writes(request, attempts).last());
            assert(after.reads.last() == attempt_reads(request, healthy_sources@, attempts).last());
        },
        RepairType::ErasureCode { .. } => {},
    }
}

/// A rebuild never writes anything but what was reconstructed, and writes at most once.
pub proof fn rebuild_writes_at_most_once(
    request: RepairRequest,
    before: RepairCalls,
    after: RepairCalls,
    outcome: RepairOutcome,
)
    requires
        request.repair_type is ErasureCode,
        carried_out(request, before, after, outcome),
    ensures
        after.writes == before.writes || exists|written: Result<(), String>|
            after.rebuilds.last().result is Ok && after.writes == before.writes.push(
                #[trigger] write_for(request, after.rebuilds.last().result->Ok_0@, written),
            ),
{
}

fn succeeded(request: &RepairRequest) -> (r: RepairOutcome)
    ensures
        r.is_success_of(*request),
{
    RepairOutcome {
        extent_id: request.extent_id,
        target_disk_id: request.target_disk_id,
        success: true,
        error: None,
    }
}

fn failed(request: &RepairRequest, error: String) -> (r: RepairOutcome)
    ensures
        r.is_failure_of(*request, error@),
{
    RepairOutcome {
        extent_id: request.extent_id,
        target_disk_id: request.target_disk_id,
        success: false,
        error: Some(error),
    }
}

/// How far a repair by replication has got: it reads from the healthy sources in turn,
/// writes what it read, and goes on to the next source where either fails.
#[derive(Clone, Copy, Debug, PartialEq, Eq, Structural)]
pub enum ReplicationState {
    /// Read from the source at this position.
    Reading { at: usize },
    /// Write what was read from the source at this position.
    Writing { at: usize },
    /// Nothing is left to do.
    Done { success: bool },
}

impl ReplicationState {
    /// The state before anything was done, with `count` sources.
    pub open spec fn start(count: nat) -> Self {
        if count == 0 {
            ReplicationState::Done { success: false }
        } else {
            ReplicationState::Reading { at: 0 }
        }
    }

    /// The state on the source after the one at a position.
    pub open spec fn on_next(at: usize, count: nat) -> Self {
        if at + 1 < count {
            ReplicationState::Reading { at: (at + 1) as usize }
        } else {
            ReplicationState::Done { success: false }
        }
    }

    /// The state after what was to be done succeeded, or did not.
    pub open spec fn after(self, ok: bool, count: nat) -> Self {
        match self {
            ReplicationState::Reading { at } => if ok {
                ReplicationState::Writing { at }
            } else {
                Self::on_next(at, count)
            },
            ReplicationState::Writing { at } => if ok {
                ReplicationState::Done { success: true }
            } else {
                Self::on_next(at, count)
            },
            ReplicationState::Done { success } => self,
        }
    }

    /// Whether the state is about one of the sources.
    pub open spec fn is_within(self, count: nat) -> bool {
        match self {
            ReplicationState::Reading { at } => at < count,
            ReplicationState::Writing { at } => at < count,
            ReplicationState::Done { .. } => true,
        }
    }

    /// How much there can still be to do.
    pub open spec fn remaining(self, count: nat) -> int {
        match self {
            ReplicationState::Reading { at } => 2 * (count - at),
            ReplicationState::Writing { at } => 2 * (count - at) - 1,
            ReplicationState::Done { .. } => 0,
        }
    }

    /// The state before anything was done.
    pub fn new(count: usize) -> (r: Self)
        ensures
            r == Self::start(count as nat),
            r.is_within(count as nat),
    {
        if count == 0 {
            ReplicationState::Done { success: false }
        } else {
            ReplicationState::Reading { at: 0 }
        }
    }

    /// The state after what was to be done succeeded, or did not.
    pub fn next(&self, ok: bool, count: usize) -> (r: Self)
        requires
            self.is_within(count as nat),
        ensures
            r == self.after(ok, count as nat),
            r.is_within(count as nat),
            !(*self is Done) ==> r.remaining(count as nat) < self.remaining(count as nat),
    {
        let at: usize = match *self {
            ReplicationState::Reading { at } => {
                if ok {
                    return ReplicationState::Writing { at };
                }
                at
            },
            ReplicationState::Writing { at } => {
                if ok {
                    return ReplicationState::Done { success: true };
                }
                at
            },
            ReplicationState::Done { success } => {
                return ReplicationState::Done { success };
            },
        };
        if at < count - 1 {
            ReplicationState::Reading { at: at + 1 }
        } else {
            ReplicationState::Done { success: false }
        }
    }
}

/// How a repair by replication ends from a state on, given for each source whether
/// reading from it and writing what was read succeed.
pub open spec fn replication_ends(
    state: ReplicationState,
    reads: Seq<bool>,
    writes: Seq<bool>,
) -> bool
    decreases state.remaining(reads.len()) when state.is_within(reads.len()) && reads.len()
        <= usize::MAX
{
    match state {
        ReplicationState::Done { success } => success,
        ReplicationState::Reading { at } => replication_ends(
            state.after(reads[at as int], reads.len()),
            reads,
            writes,
        ),
        ReplicationState::Writing { at } => replication_ends(
            state.after(writes[at as int], reads.len()),
            reads,
            writes,
        ),
    }
}

/// A repair by replication succeeds exactly where there is a healthy source that can be
/// read and whose data can be written.
pub proof fn replication_succeeds_with_one_good_source(reads: Seq<bool>, writes: Seq<bool>)
    requires
        reads.len() == writes.len(),
        reads.len() <= usize::MAX,
    ensures
        replication_ends(ReplicationState::start(reads.len()), reads, writes) <==> exists|i: int|
            0 <= i < reads.len() && #[trigger] reads[i] && writes[i],
{
    if reads.len() > 0 {
        lemma_replication_from(0, reads, writes);
    }
}

proof fn lemma_replication_from(at: usize, reads: Seq<bool>, writes: Seq<bool>)
    requires
        reads.len() == writes.len(),
        reads.len() <= usize::MAX,
        at < reads.len(),
    ensures
        replication_ends(ReplicationState::Reading { at }, reads, writes) <==> exists|i: int|
            at <= i < reads.len() && #[trigger] reads[i] && writes[i],
    decreases reads.len() - at,
{
    let next = (at + 1) as usize;
    let writing = ReplicationState::Writing { at };
    if at + 1 < reads.len() {
        lemma_replication_from(next, reads, writes);
    }
    if reads[at as int] {
        if writes[at as int] {
            assert(replication_ends(ReplicationState::Done { success: true }, reads, writes));
            assert(replication_ends(writing, reads, writes));
        } else {
            assert(replication_ends(writing, reads, writes) == replication_ends(
                ReplicationState::on_next(at, reads.len()),
                reads,
                writes,
            ));
        }
    }
    if at + 1 >= reads.len() {
        assert(!replication_ends(ReplicationState::Done { success: false }, reads, writes));
    }
    if exists|i: int| at <= i < reads.len() && #[trigger] reads[i] && writes[i] {
        let i = choose|i: int| at <= i < reads.len() && #[trigger] reads[i] && writes[i];
        if i > at {
            assert(next <= i && reads[i] && writes[i]);
        }
    }
}

/// The outcome of a repair by replication.
pub fn replication_outcome(request: &RepairRequest, success: bool) -> (r: RepairOutcome)
    ensures
        success ==> r.is_success_of(*request),
        !success ==> r.is_failure_of(*request, "all healthy sources failed"@),
{
    if success {
        succeeded(request)
    } else {
        failed(request, "all healthy sources failed".to_owned())
    }
}

/// The fragments after the first ones were read: each that could be read stands at its
/// index, where that is one of the extent; a later one replaces an earlier one.
pub open spec fn fragments_read(
    total: nat,
    available: Seq<(usize, DiskId)>,
    results: Seq<Result<Vec<u8>, String>>,
    count: nat,
) -> Seq<Option<Vec<u8>>>
    decreases count,
{
    if count == 0 {
        Seq::new(total, |i: int| None)
    } else {
        let before = fragments_read(total, available, results, (count - 1) as nat);
        let index = available[count - 1].0;
        match results[count - 1] {
            Ok(data) => if index < total {
                before.update(index as int, Some(data))
            } else {
                before
            },
            Err(_) => before,
        }
    }
}

/// How many fragments are there.
pub open spec fn fragment_count(fragments: Seq<Option<Vec<u8>>>) -> nat
    decreases fragments.len(),
{
    if fragments.len() == 0 {
        0
    } else {
        fragment_count(fragments.drop_last()) + (if fragments.last() is Some {
            1nat
        } else {
            0nat
        })
    }
}

/// No fragments.
pub fn no_fragments(total: usize) -> (r: Vec<Option<Vec<u8>>>)
    ensures
        r@ == Seq::new(total as nat, |i: int| None::<Vec<u8>>),
{
    let mut r: Vec<Option<Vec<u8>>> = Vec::new();
    let mut i: usize = 0;
    while i < total
        invariant
            i <= total,
            r@.len() == i,
            forall|j: int| 0 <= j < i ==> (#[trigger] r@[j]) is None,
        decreases total - i,
    {
        r.push(None);
        i = i + 1;
    }
    assert(r@ =~= Seq::new(total as nat, |i: int| None::<Vec<u8>>));
    r
}

/// Puts what was read of a fragment where it belongs.
pub fn place_fragment(
    fragments: &mut Vec<Option<Vec<u8>>>,
    index: usize,
    result: Result<Vec<u8>, String>,
)
    ensures
        final(fragments)@ == (match result {
            Ok(data) => if index < old(fragments)@.len() {
                old(fragments)@.update(index as int, Some(data))
            } else {
                old(fragments)@
            },
            Err(_) => old(fragments)@,
        }),
{
    match result {
        Ok(data) => {
            if index < fragments.len() {
                fragments.set(index, Some(data));
            }
        },
        Err(_) => {},
    }
}

/// The fragments that reading the available ones gave.
pub fn gather_fragments(
    total: usize,
    available: &Vec<(usize, DiskId)>,
    results: Vec<Result<Vec<u8>, String>>,
) -> (r: Vec<Option<Vec<u8>>>)
    requires
        available@.len() == results@.len(),
    ensures
        r@ == fragments_read(total as nat, available@, results@, results@.len()),
{
    let ghost all = results@;
    let mut fragments = no_fragments(total);
    let count = available.len();
    let mut i: usize = 0;
    for result in it: results
        invariant
            it.seq() == all,
            i == it.index(),
            count == all.len(),
            available@.len() == all.len(),
            fragments@ == fragments_read(total as nat, available@, all, it.index() as nat),
            fragments@.len() == total,
        decreases all.len() - i,
    {
        assert(all[i as int] == result);
        place_fragment(&mut fragments, available[i].0, result);
        i = i + 1;
    }
    fragments
}

/// How many fragments are there.
pub fn count_fragments(fragments: &Vec<Option<Vec<u8>>>) -> (r: usize)
    ensures
        r == fragment_count(fragments@),
{
    let mut n: usize = 0;
    let mut i: usize = 0;
    while i < fragments.len()
        invariant
            i <= fragments@.len(),
            n <= i,
            n == fragment_count(fragments@.take(i as int)),
        decreases fragments@.len() - i,
    {
        if fragments[i].is_some() {
            n = n + 1;
        }
        i = i + 1;
        assert(fragments@.take(i as int).drop_last() =~= fragments@.take(i - 1));
    }
    assert(fragments@.take(fragments@.len() as int) =~= fragments@);
    n
}

/// The outcome where too few fragments could be read; none where there are enough.
pub fn check_fragments(
    request: &RepairRequest,
    data_count: usize,
    fragments: &Vec<Option<Vec<u8>>>,
) -> (r: Option<RepairOutcome>)
    ensures
        match r {
            Some(outcome) => fragment_count(fragments@) < data_count && outcome.is_failure_of(
                *request,
                "insufficient fragments: have "@ + decimal(fragment_count(fragments@)) + ", need "@
                    + decimal(data_count as nat),
            ),
            None => fragment_count(fragments@) >= data_count,
        },
{
    let have = count_fragments(fragments);
    if have < data_count {
        Some(
            failed(
                request,
                join4(
                    "insufficient fragments: have ",
                    decimal_text(have as u64).as_str(),
                    ", need ",
                    decimal_text(data_count as u64).as_str(),
                ),
            ),
        )
    } else {
        None
    }
}

/// The outcome of a repair whose reconstruction failed.
pub fn reconstruction_failed(request: &RepairRequest, e: &str) -> (r: RepairOutcome)
    ensures
        r.is_failure_of(*request, "EC reconstruction failed: "@ + e@),
{
    failed(request, join2("EC reconstruction failed: ", e))
}

/// The outcome of a repair whose reconstructed data was written, or was not.
pub fn rebuild_outcome(request: &RepairRequest, written: &Result<(), String>) -> (r: RepairOutcome)
    ensures
        match *written {
            Ok(_) => r.is_success_of(*request),
            Err(e) => r.is_failure_of(*request, "EC repair write failed: "@ + e@),
        },
{
    match written {
        Ok(_) => succeeded(request),
        Err(e) => failed(request, join2("EC repair write failed: ", e.as_str())),
    }
}

/// Where a request of a priority goes in a queue: before the first one with a higher
/// number.
pub open spec fn queue_position(queue: Seq<RepairRequest>, priority: u32, from: int) -> int
    decreases queue.len() - from,
{
    if from >= queue.len() || queue[from].priority > priority {
        from
    } else {
        queue_position(queue, priority, from + 1)
    }
}

/// Whether a queue is ordered by priority.
pub open spec fn in_priority_order(queue: Seq<RepairRequest>) -> bool {
    forall|i: int, j: int|
        0 <= i < j < queue.len() ==> (#[trigger] queue[i]).priority <= (#[trigger] queue[j]).priority
}

/// Where a request goes in a queue: behind all that are at least as urgent from a position
/// on.
pub proof fn lemma_queue_position(queue: Seq<RepairRequest>, priority: u32, from: int)
    requires
        0 <= from <= queue.len(),
    ensures
        from <= queue_position(queue, priority, from) <= queue.len(),
        forall|i: int|
            from <= i < queue_position(queue, priority, from) ==> (#[trigger] queue[i]).priority
                <= priority,
        queue_position(queue, priority, from) < queue.len() ==> queue[queue_position(
            queue,
            priority,
            from,
        )].priority > priority,
    decreases queue.len() - from,
{
    if from < queue.len() && queue[from].priority <= priority {
        lemma_queue_position(queue, priority, from + 1);
    }
}

/// Requests are served in the order of their priority, and among equals in the order in
/// which they came: a queue stays ordered, and a new request goes behind every request
/// that is at least as urgent and before every other.
pub proof fn queue_is_served_by_priority(queue: Seq<RepairRequest>, request: RepairRequest)
    requires
        in_priority_order(queue),
    ensures
        ({
            let p = queue_position(queue, request.priority, 0);
            &&& in_priority_order(queue.insert(p, request))
            &&& forall|i: int| 0 <= i < p ==> (#[trigger] queue[i]).priority <= request.priority
            &&& forall|i: int|
                p <= i < queue.len() ==> (#[trigger] queue[i]).priority > request.priority
        }),
{
    let p = queue_position(queue, request.priority, 0);
    lemma_queue_position(queue, request.priority, 0);
    let after = queue.insert(p, request);
    assert forall|i: int| p <= i < queue.len() implies (#[trigger] queue[i]).priority
        > request.priority by {
        if i > p {
            assert(queue[p].priority <= queue[i].priority);
        }
    }
    assert forall|i: int, j: int| 0 <= i < j < after.len() implies (#[trigger] after[i]).priority
        <= (#[trigger] after[j]).priority by {
        let i2 = if i < p { i } else { i - 1 };
        let j2 = if j < p { j } else { j - 1 };
        if i != p {
            assert(after[i] == queue[i2]);
        }
        if j != p {
            assert(after[j] == queue[j2]);
        }
    }
}

/// Background repair worker.
///
/// Processes a queue of repair requests, reading from healthy sources
/// and writing repaired data to target disks.
#[derive(Clone, Debug)]
pub struct RepairWorker {
    pub config: RepairConfig,
    pub queue: Vec<RepairRequest>,
    pub completed: Vec<RepairOutcome>,
}

impl RepairWorker {
    /// The queue is ordered by priority.
    pub open spec fn wf(self) -> bool {
        in_priority_order(self.queue@)
    }

    /// Create a new repair worker.
    pub fn new(config: RepairConfig) -> (r: Self)
        ensures
            r.wf(),
            r.config == config,
            r.queue@ == Seq::<RepairRequest>::empty(),
            r.completed@ == Seq::<RepairOutcome>::empty(),
    {
        RepairWorker { config, queue: Vec::new(), completed: Vec::new() }
    }

    /// Get configuration.
    pub fn config(&self) -> (r: &RepairConfig)
        ensures
            *r == self.config,
    {
        &self.config
    }

    /// Enqueue a repair request, in the order of priority (a lower number is served
    /// first).
    pub fn enqueue(&mut self, request: RepairRequest)
        ensures
            final(self).queue@ == old(self).queue@.insert(
                queue_position(old(self).queue@, request.priority, 0),
                request,
            ),
            old(self).wf() ==> final(self).wf(),
            final(self).config == old(self).config,
            final(self).completed == old(self).completed,
    {
        let mut pos: usize = 0;
        while pos < self.queue.len() && self.queue[pos].priority <= request.priority
            invariant
                pos <= self.queue@.len(),
                queue_position(self.queue@, request.priority, 0) == queue_position(
                    self.queue@,
                    request.priority,
                    pos as int,
                ),
            decreases self.queue@.len() - pos,
        {
            pos = pos + 1;
        }
        proof {
            if in_priority_order(self.queue@) {
                queue_is_served_by_priority(self.queue@, request);
            }
        }
        self.queue.insert(pos, request);
    }

    /// Get the current queue length.
    pub fn queue_len(&self) -> (r: usize)
        ensures
            r == self.queue@.len(),
    {
        self.queue.len()
    }

    /// Get completed repair outcomes.
    pub fn completed(&self) -> (r: &Vec<RepairOutcome>)
        ensures
            r@ == self.completed@,
    {
        &self.completed
    }

    /// Takes the most urgent request off the queue.
    pub fn take_next(&mut self) -> (r: Option<RepairRequest>)
        ensures
            old(self).wf() ==> final(self).wf(),
            final(self).config == old(self).config,
            final(self).completed == old(self).completed,
            match r {
                Some(request) => old(self).queue@.len() > 0 && request == old(self).queue@[0]
                    && final(self).queue@ == old(self).queue@.skip(1),
                None => old(self).queue@.len() == 0 && final(self).queue@ == old(self).queue@,
            },
    {
        if self.queue.len() == 0 {
            return None;
        }
        let request = self.queue.remove(0);
        assert(self.queue@ =~= old(self).queue@.skip(1));
        Some(request)
    }

    /// Repair via replication: read from healthy source, write to target.
    fn repair_replication<R: RepairExtentReader, W: RepairExtentWriter>(
        request: &RepairRequest,
        healthy_sources: &Vec<DiskId>,
        extent_reader: &mut R,
        extent_writer: &mut W,
    ) -> (r: RepairOutcome)
        ensures
            exists|attempts: Seq<Attempt>|
                {
                    &&& #[trigger] copied(*request, healthy_sources@, attempts, r)
                    &&& final(extent_reader).reads() == old(extent_reader).reads()
                        + attempt_reads(*request, healthy_sources@, attempts)
                    &&& final(extent_writer).writes() == old(extent_writer).writes()
                        + attempt_writes(*request, attempts)
                },
    {
        let count = healthy_sources.len();
        let ghost sources = healthy_sources@;
        let ghost read_before = extent_reader.reads();
        let ghost written_before = extent_writer.writes();
        let ghost mut attempts: Seq<Attempt> = Seq::empty();
        let mut state = ReplicationState::new(count);
        let mut data: Vec<u8> = Vec::new();
        assert(read_before + attempt_reads(*request, sources, attempts) =~= read_before);
        assert(written_before + attempt_writes(*request, attempts) =~= written_before);
        while !matches!(state, ReplicationState::Done { .. })
            invariant
                count == sources.len(),
                sources == healthy_sources@,
                state.is_within(count as nat),
                extent_writer.writes() == written_before + attempt_writes(*request, attempts),
                forall|i: int| 0 <= i < attempts.len() - 1 ==> !(#[trigger] attempts[i]).is_good(),
                match state {
                    ReplicationState::Reading { at } => {
                        &&& attempts.len() == at
                        &&& attempts.len() > 0 ==> !attempts.last().is_good()
                        &&& extent_reader.reads() == read_before + attempt_reads(
                            *request,
                            sources,
                            attempts,
                        )
                    },
                    ReplicationState::Writing { at } => {
                        &&& attempts.len() == at
                        &&& attempts.len() > 0 ==> !attempts.last().is_good()
                        &&& extent_reader.reads() == (read_before + attempt_reads(
                            *request,
                            sources,
                            attempts,
                        )).push(
                            ReadCall {
                                source_disk: sources[at as int],
                                extent_id: request.extent_id,
                                version: request.version,
                                result: Ok(data),
                            },
                        )
                    },
                    ReplicationState::Done { success } => {
                        &&& attempts.len() <= sources.len()
                        &&& if success {
                            attempts.len() > 0 && attempts.last().is_good()
                        } else {
                            attempts.len() == sources.len() && (attempts.len() > 0
                                ==> !attempts.last().is_good())
                        }
                        &&& extent_reader.reads() == read_before + attempt_reads(
                            *request,
                            sources,
                            attempts,
                        )
                    },
                },
            decreases state.remaining(count as nat),
        {
            let mut ok: bool = false;
            match state {
                ReplicationState::Reading { at } => {
                    let read = extent_reader.read_extent(
                        healthy_sources[at],
                        request.extent_id,
                        request.version,
                    );
                    let ghost given = read;
                    match read {
                        Ok(d) => {
                            data = d;
                            ok = true;
                        },
                        Err(_) => {
                            proof {
                                let attempt = Attempt { read: given, written: Ok(()) };
                                lemma_one_more_attempt(*request, sources, attempts, attempt);
                                attempts = attempts.push(attempt);
                                assert(extent_reader.reads() =~= read_before + attempt_reads(
                                    *request,
                                    sources,
                                    attempts,
                                ));
                            }
                        },
                    }
                },
                ReplicationState::Writing { at } => {
                    let written = extent_writer.write_extent(
                        request.target_disk_id,
                        request.extent_id,
                        request.version,
                        data.as_slice(),
                    );
                    ok = written.is_ok();
                    proof {
                        let attempt = Attempt { read: Ok(data), written };
                        lemma_one_more_attempt(*request, sources, attempts, attempt);
                        attempts = attempts.push(attempt);
                        assert(extent_reader.reads() =~= read_before + attempt_reads(
                            *request,
                            sources,
                            attempts,
                        ));
                        assert(extent_writer.writes() =~= written_before + attempt_writes(
                            *request,
                            attempts,
                        ));
                    }
                },
                ReplicationState::Done { .. } => {},
            }
            state = state.next(ok, count);
        }
        let success = matches!(state, ReplicationState::Done { success: true });
        let r = replication_outcome(request, success);
        assert(copied(*request, sources, attempts, r));
        r
    }

    /// Repair via erasure coding: read K fragments, reconstruct, write.
    fn repair_ec<F: FragmentReader, W: RepairExtentWriter, E: EcReconstructor>(
        request: &RepairRequest,
        data_count: usize,
        parity_count: usize,
        available_fragments: &Vec<(usize, DiskId)>,
        original_data_len: usize,
        fragment_reader: &mut F,
        extent_writer: &mut W,
        ec_reconstructor: &mut E,
    ) -> (r: RepairOutcome)
        requires
            data_count + parity_count <= usize::MAX,
        ensures
            exists|results: Seq<Result<Vec<u8>, String>>|
                {
                    &&& results.len() == available_fragments@.len()
                    &&& final(fragment_reader).fragment_reads() == old(
                        fragment_reader,
                    ).fragment_reads() + #[trigger] gathering_reads(
                        *request,
                        available_fragments@,
                        results,
                    )
                    &&& rebuilt(
                        *request,
                        data_count,
                        parity_count,
                        fragments_read(
                            (data_count + parity_count) as nat,
                            available_fragments@,
                            results,
                            results.len(),
                        ),
                        original_data_len,
                        old(ec_reconstructor).rebuilds(),
                        final(ec_reconstructor).rebuilds(),
                        old(extent_writer).writes(),
                        final(extent_writer).writes(),
                        r,
                    )
                },
    {
        let total = data_count + parity_count;
        let ghost available = available_fragments@;
        let ghost read_before = fragment_reader.fragment_reads();
        let mut fragments = no_fragments(total);
        let ghost mut results: Seq<Result<Vec<u8>, String>> = Seq::empty();
        let mut i: usize = 0;
        assert(read_before + gathering_reads(*request, available, results) =~= read_before);
        while i < available_fragments.len()
            invariant
                i <= available.len(),
                available == available_fragments@,
                results.len() == i,
                fragment_reader.fragment_reads() == read_before + gathering_reads(
                    *request,
                    available,
                    results,
                ),
                fragments@ == fragments_read(total as nat, available, results, i as nat),
                fragments@.len() == total,
            decreases available.len() - i,
        {
            let (index, disk) = available_fragments[i];
            let result = fragment_reader.read_fragment(disk, request.extent_id, index);
            proof {
                let earlier = results;
                results = results.push(result);
                lemma_read_prefix(total as nat, available, earlier, results, i as nat);
                assert(fragment_reader.fragment_reads() =~= read_before + gathering_reads(
                    *request,
                    available,
                    results,
                ));
            }
            place_fragment(&mut fragments, index, result);
            i = i + 1;
        }
        match check_fragments(request, data_count, &fragments) {
            Some(outcome) => {
                return outcome;
            },
            None => {},
        }
        let rebuilt_data = ec_reconstructor.reconstruct(
            data_count,
            parity_count,
            fragments,
            original_data_len,
        );
        match rebuilt_data {
            Ok(data) => {
                let written = extent_writer.write_extent(
                    request.target_disk_id,
                    request.extent_id,
                    request.version,
                    data.as_slice(),
                );
                rebuild_outcome(request, &written)
            },
            Err(e) => reconstruction_failed(request, e.as_str()),
        }
    }

    /// Carries a request out.
    pub fn repair<
        R: RepairExtentReader,
        F: FragmentReader,
        W: RepairExtentWriter,
        E: EcReconstructor,
    >(
        request: &RepairRequest,
        extent_reader: &mut R,
        fragment_reader: &mut F,
        extent_writer: &mut W,
        ec_reconstructor: &mut E,
    ) -> (r: RepairOutcome)
        requires
            request.is_countable(),
        ensures
            carried_out(
                *request,
                calls_of(
                    *old(extent_reader),
                    *old(fragment_reader),
                    *old(extent_writer),
                    *old(ec_reconstructor),
                ),
                calls_of(
                    *final(extent_reader),
                    *final(fragment_reader),
                    *final(extent_writer),
                    *final(ec_reconstructor),
                ),
                r,
            ),
            r.is_for(*request),
    {
        match &request.repair_type {
            RepairType::Replication { healthy_sources } => Self::repair_replication(
                request,
                healthy_sources,
                extent_reader,
                extent_writer,
            ),
            RepairType::ErasureCode {
                data_count,
                parity_count,
                available_fragments,
                original_data_len,
            } => Self::repair_ec(
                request,
                *data_count,
                *parity_count,
                available_fragments,
                *original_data_len,
                fragment_reader,
                extent_writer,
                ec_reconstructor,
            ),
        }
    }

    /// Process the next repair request from the queue.
    pub fn process_next<
        R: RepairExtentReader,
        F: FragmentReader,
        W: RepairExtentWriter,
        E: EcReconstructor,
    >(
        &mut self,
        extent_reader: &mut R,
        fragment_reader: &mut F,
        extent_writer: &mut W,
        ec_reconstructor: &mut E,
    ) -> (r: Option<RepairOutcome>)
        requires
            old(self).queue@.len() > 0 ==> old(self).queue@[0].is_countable(),
        ensures
            final(self).config == old(self).config,
            old(self).wf() ==> final(self).wf(),
            ({
                let before = calls_of(
                    *old(extent_reader),
                    *old(fragment_reader),
                    *old(extent_writer),
                    *old(ec_reconstructor),
                );
                let after = calls_of(
                    *final(extent_reader),
                    *final(fragment_reader),
                    *final(extent_writer),
                    *final(ec_reconstructor),
                );
                match r {
                    None => {
                        &&& old(self).queue@.len() == 0
                        &&& final(self).queue@ == old(self).queue@
                        &&& final(self).completed@ == old(self).completed@
                        &&& after == before
                    },
                    Some(outcome) => {
                        &&& old(self).queue@.len() > 0
                        &&& final(self).queue@ == old(self).queue@.skip(1)
                        &&& final(self).completed@ == old(self).completed@.push(outcome)
                        &&& outcome.is_for(old(self).queue@[0])
                        &&& carried_out(old(self).queue@[0], before, after, outcome)
                    },
                }
            }),
    {
        let request: RepairRequest = match self.take_next() {
            Some(request) => request,
            None => {
                return None;
            },
        };
        let outcome = Self::repair(
            &request,
            extent_reader,
            fragment_reader,
            extent_writer,
            ec_reconstructor,
        );
        self.complete(&outcome);
        Some(outcome)
    }

    /// Records the outcome of a repair.
    pub fn complete(&mut self, outcome: &RepairOutcome)
        ensures
            final(self).config == old(self).config,
            final(self).queue == old(self).queue,
            final(self).completed@ == old(self).completed@.push(*outcome),
    {
        self.completed.push(outcome.copy());
    }

    /// Process all queued requests.
    pub fn process_all<
        R: RepairExtentReader,
        F: FragmentReader,
        W: RepairExtentWriter,
        E: EcReconstructor,
    >(
        &mut self,
        extent_reader: &mut R,
        fragment_reader: &mut F,
        extent_writer: &mut W,
        ec_reconstructor: &mut E,
    ) -> (r: Vec<RepairOutcome>)
        requires
            forall|i: int|
                0 <= i < old(self).queue@.len() ==> (#[trigger] old(self).queue@[i]).is_countable(),
        ensures
            final(self).config == old(self).config,
            final(self).queue@ == Seq::<RepairRequest>::empty(),
            final(self).completed@ == old(self).completed@ + r@,
            r@.len() == old(self).queue@.len(),
            forall|i: int| 0 <= i < r@.len() ==> (#[trigger] r@[i]).is_for(old(self).queue@[i]),
            exists|states: Seq<RepairCalls>|
                {
                    &&& #[trigger] all_carried_out(old(self).queue@, states, r@)
                    &&& states[0] == calls_of(
                        *old(extent_reader),
                        *old(fragment_reader),
                        *old(extent_writer),
                        *old(ec_reconstructor),
                    )
                    &&& states.last() == calls_of(
                        *final(extent_reader),
                        *final(fragment_reader),
                        *final(extent_writer),
                        *final(ec_reconstructor),
                    )
                },
    {
        let ghost all = self.queue@;
        let ghost had = self.completed@;
        let ghost first = calls_of(
            *extent_reader,
            *fragment_reader,
            *extent_writer,
            *ec_reconstructor,
        );
        let ghost mut states: Seq<RepairCalls> = seq![first];
        let mut outcomes: Vec<RepairOutcome> = Vec::new();
        assert(all.skip(0) =~= all);
        assert(had + outcomes@ =~= had);
        while self.queue.len() > 0
            invariant
                all == old(self).queue@,
                had == old(self).completed@,
                outcomes@.len() <= all.len(),
                self.config == old(self).config,
                self.queue@ == all.skip(outcomes@.len() as int),
                self.completed@ == had + outcomes@,
                forall|i: int| 0 <= i < all.len() ==> (#[trigger] all[i]).is_countable(),
                forall|i: int|
                    0 <= i < outcomes@.len() ==> (#[trigger] outcomes@[i]).is_for(all[i]),
                states.len() == outcomes@.len() + 1,
                states[0] == first,
                states.last() == calls_of(
                    *extent_reader,
                    *fragment_reader,
                    *extent_writer,
                    *ec_reconstructor,
                ),
                forall|i: int|
                    0 <= i < outcomes@.len() ==> #[trigger] carried_out(
                        all[i],
                        states[i],
                        states[i + 1],
                        outcomes@[i],
                    ),
            decreases self.queue@.len(),
        {
            let ghost before = outcomes@;
            let ghost passed = states;
            assert(self.queue@[0] == all[outcomes@.len() as int]);
            match self.process_next(
                extent_reader,
                fragment_reader,
                extent_writer,
                ec_reconstructor,
            ) {
                Some(outcome) => {
                    outcomes.push(outcome);
                    proof {
                        states = states.push(
                            calls_of(
                                *extent_reader,
                                *fragment_reader,
                                *extent_writer,
                                *ec_reconstructor,
                            ),
                        );
                        assert forall|i: int| 0 <= i < outcomes@.len() implies #[trigger] carried_out(
                            all[i],
                            states[i],
                            states[i + 1],
                            outcomes@[i],
                        ) by {
                            if i < before.len() {
                                assert(carried_out(all[i], passed[i], passed[i + 1], before[i]));
                            }
                        }
                    }
                    assert(self.queue@ =~= all.skip(outcomes@.len() as int));
                    assert(self.completed@ =~= had + outcomes@);
                },
                None => {},
            }
        }
        assert(self.queue@ =~= Seq::empty());
        assert(all_carried_out(all, states, outcomes@));
        outcomes
    }
}

proof fn lemma_one_more_attempt(
    request: RepairRequest,
    sources: Seq<DiskId>,
    attempts: Seq<Attempt>,
    attempt: Attempt,
)
    ensures
        attempt_reads(request, sources, attempts.push(attempt)) == attempt_reads(
            request,
            sources,
            attempts,
        ).push(
            ReadCall {
                source_disk: sources[attempts.len() as int],
                extent_id: request.extent_id,
                version: request.version,
                result: attempt.read,
            },
        ),
        attempt_writes(request, attempts.push(attempt)) == (match attempt.read {
            Ok(data) => attempt_writes(request, attempts).push(
                write_for(request, data@, attempt.written),
            ),
            Err(_) => attempt_writes(request, attempts),
        }),
{
    let more = attempts.push(attempt);
    assert(more.drop_last() =~= attempts);
    assert(attempt_reads(request, sources, more) =~= attempt_reads(request, sources, attempts).push(
        ReadCall {
            source_disk: sources[attempts.len() as int],
            extent_id: request.extent_id,
            version: request.version,
            result: attempt.read,
        },
    ));
}

proof fn lemma_read_prefix(
    total: nat,
    available: Seq<(usize, DiskId)>,
    first: Seq<Result<Vec<u8>, String>>,
    results: Seq<Result<Vec<u8>, String>>,
    count: nat,
)
    requires
        count <= first.len() <= results.len(),
        forall|i: int| 0 <= i < first.len() ==> results[i] == #[trigger] first[i],
    ensures
        fragments_read(total, available, results, count) == fragments_read(
            total,
            available,
            first,
            count,
        ),
    decreases count,
{
    if count > 0 {
        lemma_read_prefix(total, available, first, results, (count - 1) as nat);
        assert(results[count - 1] == first[count - 1]);
    }
}

/// Whether a read gave data.
pub open spec fn gave_data(read: ReadCall) -> bool {
    read.result is Ok
}

/// A repair by replication reads from the healthy sources in order, each at most once, and
/// writes what each read gave, to the target. It succeeds exactly where its last write did;
/// every write before that failed. It fails only when it has read from every source, and
/// then no write succeeded.
pub proof fn copies_try_the_sources_in_order(
    request: RepairRequest,
    before: RepairCalls,
    after: RepairCalls,
    outcome: RepairOutcome,
)
    requires
        request.repair_type is Replication,
        carried_out(request, before, after, outcome),
    ensures
        ({
            let sources = request.repair_type->healthy_sources@;
            let tried = after.reads.len() - before.reads.len();
            let reads = after.reads.skip(before.reads.len() as int);
            let writes = after.writes.skip(before.writes.len() as int);
            let good = reads.filter(|c: ReadCall| gave_data(c));
            &&& 0 <= tried <= sources.len()
            &&& after.reads.take(before.reads.len() as int) == before.reads
            &&& after.writes.len() >= before.writes.len()
            &&& after.writes.take(before.writes.len() as int) == before.writes
            &&& after.fragment_reads == before.fragment_reads
            &&& after.rebuilds == before.rebuilds
            &&& forall|i: int|
                0 <= i < tried ==> (#[trigger] reads[i]).source_disk == sources[i]
                    && reads[i].extent_id == request.extent_id && reads[i].version
                    == request.version
            &&& writes.len() == good.len()
            &&& forall|k: int|
                0 <= k < writes.len() ==> {
                    let write = #[trigger] writes[k];
                    &&& write.data == good[k].result->Ok_0@
                    &&& write.target_disk == request.target_disk_id
                    &&& write.extent_id == request.extent_id
                    &&& write.version == request.version
                }
            &&& forall|k: int|
                0 <= k < writes.len() - 1 ==> (#[trigger] writes[k]).result is Err
            &&& outcome.success <==> writes.len() > 0 && writes[writes.len() - 1].result is Ok
            &&& !outcome.success ==> tried == sources.len()
            &&& outcome.success ==> tried > 0 && gave_data(reads[tried - 1])
            &&& outcome.extent_id == request.extent_id
            &&& outcome.target_disk_id == request.target_disk_id
            &&& outcome.success <==> outcome.error is None
        }),
{
    let sources = request.repair_type->healthy_sources@;
    let attempts = choose|attempts: Seq<Attempt>|
        {
            &&& #[trigger] copied(request, sources, attempts, outcome)
            &&& after.reads == before.reads + attempt_reads(request, sources, attempts)
            &&& after.writes == before.writes + attempt_writes(request, attempts)
            &&& after.fragment_reads == before.fragment_reads
            &&& after.rebuilds == before.rebuilds
        };
    let reads = after.reads.skip(before.reads.len() as int);
    let writes = after.writes.skip(before.writes.len() as int);
    assert(reads =~= attempt_reads(request, sources, attempts));
    assert(writes =~= attempt_writes(request, attempts));
    assert(after.reads.take(before.reads.len() as int) =~= before.reads);
    assert(after.writes.take(before.writes.len() as int) =~= before.writes);
    lemma_writes_follow_reads(request, sources, attempts);
    if attempts.len() > 0 {
        lemma_failed_writes(request, attempts.drop_last());
        lemma_writes_follow_reads(request, sources, attempts.drop_last());
        assert forall|i: int| 0 <= i < attempts.drop_last().len() implies !(
        #[trigger] attempts.drop_last()[i]).is_good() by {
            assert(attempts.drop_last()[i] == attempts[i]);
        }
        if !outcome.success {
            assert forall|i: int| 0 <= i < attempts.len() implies !(
            #[trigger] attempts[i]).is_good() by {
                if i == attempts.len() - 1 {
                    assert(attempts.last() == attempts[i]);
                }
            }
            lemma_failed_writes(request, attempts);
        }
    }
}

proof fn lemma_writes_follow_reads(
    request: RepairRequest,
    sources: Seq<DiskId>,
    attempts: Seq<Attempt>,
)
    ensures
        ({
            let reads = attempt_reads(request, sources, attempts);
            let writes = attempt_writes(request, attempts);
            let good = reads.filter(|c: ReadCall| gave_data(c));
            &&& writes.len() == good.len()
            &&& forall|k: int|
                0 <= k < writes.len() ==> {
                    let write = #[trigger] writes[k];
                    &&& write.data == good[k].result->Ok_0@
                    &&& write.target_disk == request.target_disk_id
                    &&& write.extent_id == request.extent_id
                    &&& write.version == request.version
                }
        }),
    decreases attempts.len(),
{
    reveal(Seq::filter);
    if attempts.len() > 0 {
        let front = attempts.drop_last();
        lemma_writes_follow_reads(request, sources, front);
        let reads = attempt_reads(request, sources, attempts);
        assert(reads.drop_last() =~= attempt_reads(request, sources, front));
        let before = attempt_writes(request, front);
        let writes = attempt_writes(request, attempts);
        let good = reads.filter(|c: ReadCall| gave_data(c));
        assert forall|k: int| 0 <= k < writes.len() implies {
            let write = #[trigger] writes[k];
            &&& write.data == good[k].result->Ok_0@
            &&& write.target_disk == request.target_disk_id
            &&& write.extent_id == request.extent_id
            &&& write.version == request.version
        } by {
            if k < before.len() {
                assert(writes[k] == before[k]);
            }
        }
    }
}

proof fn lemma_failed_writes(request: RepairRequest, attempts: Seq<Attempt>)
    ensures
        (forall|i: int| 0 <= i < attempts.len() ==> !(#[trigger] attempts[i]).is_good())
            ==> forall|k: int|
            0 <= k < attempt_writes(request, attempts).len() ==> (#[trigger] attempt_writes(
                request,
                attempts,
            )[k]).result is Err,
    decreases attempts.len(),
{
    if attempts.len() > 0 && forall|i: int|
        0 <= i < attempts.len() ==> !(#[trigger] attempts[i]).is_good() {
        let front = attempts.drop_last();
        assert forall|i: int| 0 <= i < front.len() implies !(#[trigger] front[i]).is_good() by {
            assert(front[i] == attempts[i]);
        }
        lemma_failed_writes(request, front);
        assert(!attempts[attempts.len() - 1].is_good());
        let before = attempt_writes(request, front);
        let writes = attempt_writes(request, attempts);
        assert forall|k: int| 0 <= k < writes.len() implies (
        #[trigger] writes[k]).result is Err by {
            if k < before.len() {
                assert(writes[k] == before[k]);
            }
        }
    }
}

/// Whether a read of a fragment gave data for an index.
pub open spec fn gave_fragment(read: FragmentCall, index: int) -> bool {
    read.fragment_index == index && read.result is Ok
}

/// A rebuild reads every available fragment once, in order. At each index below the total
/// stands what the last good read for it gave, and nothing where there was none; with fewer
/// of them than data fragments nothing is rebuilt and nothing written. Otherwise these
/// fragments are handed to one reconstruction, and what it gives, if anything, is written
/// once to the target; the repair succeeds exactly where both do.
pub proof fn rebuilds_use_what_was_read(
    request: RepairRequest,
    before: RepairCalls,
    after: RepairCalls,
    outcome: RepairOutcome,
)
    requires
        request.is_countable(),
        request.repair_type is ErasureCode,
        carried_out(request, before, after, outcome),
    ensures
        ({
            let available = request.repair_type->available_fragments@;
            let k = request.repair_type->data_count;
            let m = request.repair_type->parity_count;
            let reads = after.fragment_reads.skip(before.fragment_reads.len() as int);
            &&& after.reads == before.reads
            &&& after.fragment_reads.take(before.fragment_reads.len() as int)
                == before.fragment_reads
            &&& reads.len() == available.len()
            &&& forall|i: int|
                0 <= i < reads.len() ==> (#[trigger] reads[i]).fragment_index == available[i].0
                    && reads[i].source_disk == available[i].1 && reads[i].extent_id
                    == request.extent_id
            &&& exists|fragments: Seq<Option<Vec<u8>>>|
                {
                    &&& #[trigger] holds_what_was_read(fragments, (k + m) as nat, reads)
                    &&& if fragments.filter(|f: Option<Vec<u8>>| f is Some).len() < k {
                        &&& after.rebuilds == before.rebuilds
                        &&& after.writes == before.writes
                        &&& !outcome.success
                    } else {
                        let call = after.rebuilds[before.rebuilds.len() as int];
                        &&& after.rebuilds.len() == before.rebuilds.len() + 1
                        &&& after.rebuilds.take(before.rebuilds.len() as int) == before.rebuilds
                        &&& call.data_count == k
                        &&& call.parity_count == m
                        &&& call.fragments == fragments
                        &&& call.original_len == request.repair_type->original_data_len
                        &&& call.result is Err ==> after.writes == before.writes
                            && !outcome.success
                        &&& call.result matches Ok(data) ==> {
                            let write = after.writes[before.writes.len() as int];
                            &&& after.writes.len() == before.writes.len() + 1
                            &&& after.writes.take(before.writes.len() as int) == before.writes
                            &&& write.data == data@
                            &&& write.target_disk == request.target_disk_id
                            &&& write.extent_id == request.extent_id
                            &&& write.version == request.version
                            &&& outcome.success <==> write.result is Ok
                        }
                    }
                }
            &&& outcome.extent_id == request.extent_id
            &&& outcome.target_disk_id == request.target_disk_id
            &&& outcome.success <==> outcome.error is None
        }),
{
    let available = request.repair_type->available_fragments@;
    let k = request.repair_type->data_count;
    let m = request.repair_type->parity_count;
    let total = (k + m) as nat;
    let results = choose|results: Seq<Result<Vec<u8>, String>>|
        {
            &&& results.len() == available.len()
            &&& after.fragment_reads == before.fragment_reads + #[trigger] gathering_reads(
                request,
                available,
                results,
            )
            &&& after.reads == before.reads
            &&& rebuilt(
                request,
                k,
                m,
                fragments_read(total, available, results, results.len()),
                request.repair_type->original_data_len,
                before.rebuilds,
                after.rebuilds,
                before.writes,
                after.writes,
                outcome,
            )
        };
    let reads = after.fragment_reads.skip(before.fragment_reads.len() as int);
    let fragments = fragments_read(total, available, results, results.len());
    assert(reads =~= gathering_reads(request, available, results));
    assert(after.fragment_reads.take(before.fragment_reads.len() as int)
        =~= before.fragment_reads);
    lemma_fragments_hold_reads(request, total, available, results, results.len());
    assert(reads.take(results.len() as int) =~= reads);
    assert(holds_what_was_read(fragments, total, reads));
    fragments_that_are_there_count(fragments);
    if fragment_count(fragments) >= k {
        assert(after.rebuilds.take(before.rebuilds.len() as int) =~= before.rebuilds);
        if after.rebuilds.last().result is Ok {
            assert(after.writes.take(before.writes.len() as int) =~= before.writes);
        }
    }
}

/// Whether a fragment is what the last good read for its index gave, or is missing where
/// there was none.
pub open spec fn is_what_was_read(
    fragment: Option<Vec<u8>>,
    index: int,
    reads: Seq<FragmentCall>,
) -> bool {
    &&& (forall|i: int| 0 <= i < reads.len() ==> !gave_fragment(#[trigger] reads[i], index))
        ==> fragment is None
    &&& forall|i: int|
        0 <= i < reads.len() && gave_fragment(#[trigger] reads[i], index) && (forall|j: int|
            i < j < reads.len() ==> !gave_fragment(#[trigger] reads[j], index)) ==> fragment
            == Some(reads[i].result->Ok_0)
}

/// Whether fragments are those that reads gave.
pub open spec fn holds_what_was_read(
    fragments: Seq<Option<Vec<u8>>>,
    total: nat,
    reads: Seq<FragmentCall>,
) -> bool {
    &&& fragments.len() == total
    &&& forall|index: int|
        0 <= index < total ==> is_what_was_read(#[trigger] fragments[index], index, reads)
}

proof fn lemma_one_more_read(
    before: Option<Vec<u8>>,
    after: Option<Vec<u8>>,
    index: int,
    reads: Seq<FragmentCall>,
    read: FragmentCall,
)
    requires
        is_what_was_read(before, index, reads),
        after == (if gave_fragment(read, index) {
            Some(read.result->Ok_0)
        } else {
            before
        }),
    ensures
        is_what_was_read(after, index, reads.push(read)),
{
    let more = reads.push(read);
    let n = reads.len() as int;
    assert(more[n] == read);
    if forall|i: int| 0 <= i < more.len() ==> !gave_fragment(#[trigger] more[i], index) {
        assert(!gave_fragment(more[n], index));
        assert forall|i: int| 0 <= i < reads.len() implies !gave_fragment(
            #[trigger] reads[i],
            index,
        ) by {
            assert(more[i] == reads[i]);
        }
    }
    assert forall|i: int|
        0 <= i < more.len() && gave_fragment(#[trigger] more[i], index) && (forall|j: int|
            i < j < more.len() ==> !gave_fragment(#[trigger] more[j], index)) implies after
        == Some(more[i].result->Ok_0) by {
        if i < n {
            assert(!gave_fragment(more[n], index));
            assert(reads[i] == more[i]);
            assert forall|j: int| i < j < reads.len() implies !gave_fragment(
                #[trigger] reads[j],
                index,
            ) by {
                assert(more[j] == reads[j]);
            }
        }
    }
}

proof fn lemma_fragments_hold_reads(
    request: RepairRequest,
    total: nat,
    available: Seq<(usize, DiskId)>,
    results: Seq<Result<Vec<u8>, String>>,
    count: nat,
)
    requires
        count <= results.len() == available.len(),
    ensures
        holds_what_was_read(
            fragments_read(total, available, results, count),
            total,
            gathering_reads(request, available, results).take(count as int),
        ),
    decreases count,
{
    let all = gathering_reads(request, available, results);
    if count > 0 {
        let n = (count - 1) as nat;
        lemma_fragments_hold_reads(request, total, available, results, n);
        let before = fragments_read(total, available, results, n);
        let fragments = fragments_read(total, available, results, count);
        let earlier = all.take(n as int);
        assert(all.take(count as int) =~= earlier.push(all[n as int]));
        assert forall|index: int| 0 <= index < total implies is_what_was_read(
            #[trigger] fragments[index],
            index,
            earlier.push(all[n as int]),
        ) by {
            assert(is_what_was_read(before[index], index, earlier));
            lemma_one_more_read(
                before[index],
                fragments[index],
                index,
                earlier,
                all[n as int],
            );
        }
    }
}

/// The fragments that are there are counted, each once.
pub proof fn fragments_that_are_there_count(fragments: Seq<Option<Vec<u8>>>)
    ensures
        fragment_count(fragments) == fragments.filter(|f: Option<Vec<u8>>| f is Some).len(),
    decreases fragments.len(),
{
    reveal(Seq::filter);
    if fragments.len() > 0 {
        fragments_that_are_there_count(fragments.drop_last());
    }
}

/// When all requests are processed, each is carried out once, in the order of the queue, on
/// what those before it left.
pub proof fn requests_are_carried_out_one_by_one(
    requests: Seq<RepairRequest>,
    states: Seq<RepairCalls>,
    outcomes: Seq<RepairOutcome>,
    i: int,
)
    requires
        all_carried_out(requests, states, outcomes),
        0 <= i < requests.len(),
    ensures
        outcomes.len() == requests.len(),
        states.len() == requests.len() + 1,
        carried_out(requests[i], states[i], states[i + 1], outcomes[i]),
{
}

/// What was asked of all that a repair works with is what was asked of each.
pub proof fn calls_are_those_of_each<
    R: RepairExtentReader,
    F: FragmentReader,
    W: RepairExtentWriter,
    E: EcReconstructor,
>(reader: R, fragment_reader: F, writer: W, reconstructor: E)
    ensures
        calls_of(reader, fragment_reader, writer, reconstructor).reads == reader.reads(),
        calls_of(reader, fragment_reader, writer, reconstructor).fragment_reads
            == fragment_reader.fragment_reads(),
        calls_of(reader, fragment_reader, writer, reconstructor).writes == writer.writes(),
        calls_of(reader, fragment_reader, writer, reconstructor).rebuilds
            == reconstructor.rebuilds(),
{
}

} // verus!
