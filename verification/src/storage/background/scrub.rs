//! Background scrubbing: verify extent file readability, checksum integrity,
//! and local metadata recoverability.
//!
//! The [`ScrubWorker`] periodically scans extent files on each disk,
//! verifies checksums, and reports corruption for repair.

use crate::ids::{DiskId, ExtentId};
use crate::text::{contains_text, same_text, text_contains};
use vstd::prelude::*;

verus! {

/// Configuration for the scrub worker.
#[derive(Clone, Copy, Debug, PartialEq, Eq, Structural)]
pub struct ScrubConfig {
    /// Interval between full scrub passes in seconds.
    pub interval_secs: u64,
    /// Number of rate-limit tokens per extent read.
    pub tokens_per_extent: u64,
}

impl Default for ScrubConfig {
    fn default() -> (r: Self)
        ensures
            r.interval_secs == 86400,
            r.tokens_per_extent == 1,
    {
        ScrubConfig { interval_secs: 86400, tokens_per_extent: 1 }
    }
}

/// Result of scrubbing a single disk.
#[derive(Clone, Copy, Debug)]
pub struct ScrubResult {
    /// Disk that was scrubbed.
    pub disk_id: DiskId,
    /// Total extents checked.
    pub extents_checked: u64,
    /// Number of extents with checksum errors.
    pub checksum_errors: u64,
    /// Number of extents that could not be read.
    pub read_errors: u64,
    /// Number of missing metadata files.
    pub metadata_errors: u64,
    /// Duration of the scrub pass in milliseconds.
    pub duration_ms: u64,
}

/// An extent entry for scrubbing.
#[derive(Clone, Debug)]
pub struct ScrubExtentEntry {
    pub extent_id: ExtentId,
    pub disk_id: DiskId,
    pub expected_checksum: String,
    pub version: u64,
}

/// A call that a reader got, and its answer.
pub ghost enum ScrubCall {
    Disks { disks: Seq<DiskId> },
    Extents { disk_id: DiskId, entries: Seq<ScrubExtentEntry> },
    Read {
        disk_id: DiskId,
        extent_id: ExtentId,
        version: u64,
        result: Result<(Vec<u8>, String), String>,
    },
}

/// Reads extent data during scrub.
pub trait ExtentReader {
    /// The calls that the reader got so far. An implementation that is itself verified
    /// keeps this record; for any other it is what a bystander would have noted down.
    open spec fn calls(&self) -> Seq<ScrubCall> {
        Seq::empty()
    }

    /// Read extent data and return (data, computed_checksum).
    fn read_extent(
        &mut self,
        disk_id: DiskId,
        extent_id: ExtentId,
        version: u64,
    ) -> (r: Result<(Vec<u8>, String), String>)
        ensures
            final(self).calls() == old(self).calls().push(
                (ScrubCall::Read { disk_id, extent_id, version, result: r }),
            ),
    ;

    /// List all extents on a disk.
    fn list_extents(&mut self, disk_id: DiskId) -> (r: Vec<ScrubExtentEntry>)
        ensures
            final(self).calls() == old(self).calls().push(
                (ScrubCall::Extents { disk_id, entries: r@ }),
            ),
    ;

    /// List all disk IDs.
    fn list_disks(&mut self) -> (r: Vec<DiskId>)
        ensures
            final(self).calls() == old(self).calls().push((ScrubCall::Disks { disks: r@ })),
    ;
}

/// What a read says of the checksum: what was computed, or why nothing was.
pub open spec fn checksum_read(result: Result<(Vec<u8>, String), String>) -> Result<String, String> {
    match result {
        Ok(data_and_sum) => Ok(data_and_sum.1),
        Err(e) => Err(e),
    }
}

/// What the reads of some extents say of their checksums.
pub open spec fn checksums_read(
    results: Seq<Result<(Vec<u8>, String), String>>,
) -> Seq<Result<String, String>> {
    results.map_values(|result: Result<(Vec<u8>, String), String>| checksum_read(result))
}

/// The calls by which the first extents of a disk are read, each once and in order.
pub open spec fn read_calls(
    disk_id: DiskId,
    entries: Seq<ScrubExtentEntry>,
    results: Seq<Result<(Vec<u8>, String), String>>,
) -> Seq<ScrubCall> {
    Seq::new(
        results.len(),
        |i: int|
            ScrubCall::Read {
                disk_id,
                extent_id: entries[i].extent_id,
                version: entries[i].version,
                result: results[i],
            },
    )
}

/// The time between two readings of a clock; none where it ran back.
pub open spec fn elapsed(started: u64, ended: u64) -> u64 {
    if started <= ended {
        (ended - started) as u64
    } else {
        0
    }
}

/// Reason for corruption detection.
#[derive(Clone, Debug, PartialEq, Eq)]
pub enum CorruptionReason {
    ChecksumMismatch { expected: String, actual: String },
    ReadError(String),
    MissingMetadata,
}

/// Notification sent when scrub detects corruption.
#[derive(Clone, Debug)]
pub struct CorruptionNotification {
    pub disk_id: DiskId,
    pub extent_id: ExtentId,
    pub reason: CorruptionReason,
}

impl ScrubExtentEntry {
    /// What is wrong with an extent, given the checksum of what was read of it, or the
    /// error that reading it gave.
    pub open spec fn fault(self, read: Result<String, String>) -> Option<CorruptionReason> {
        match read {
            Ok(actual) => if actual@ == self.expected_checksum@ {
                None
            } else {
                Some(
                    CorruptionReason::ChecksumMismatch { expected: self.expected_checksum, actual },
                )
            },
            Err(e) => if contains_text(e@, "metadata"@) {
                Some(CorruptionReason::MissingMetadata)
            } else {
                Some(CorruptionReason::ReadError(e))
            },
        }
    }
}

impl ScrubResult {
    /// The result before any extent was checked.
    pub open spec fn unchecked(disk_id: DiskId) -> Self {
        ScrubResult {
            disk_id,
            extents_checked: 0,
            checksum_errors: 0,
            read_errors: 0,
            metadata_errors: 0,
            duration_ms: 0,
        }
    }

    /// The result with one more extent checked.
    pub open spec fn after(self, fault: Option<CorruptionReason>) -> Self {
        let checked = ScrubResult { extents_checked: (self.extents_checked + 1) as u64, ..self };
        match fault {
            None => checked,
            Some(CorruptionReason::ChecksumMismatch { .. }) => ScrubResult {
                checksum_errors: (self.checksum_errors + 1) as u64,
                ..checked
            },
            Some(CorruptionReason::ReadError(_)) => ScrubResult {
                read_errors: (self.read_errors + 1) as u64,
                ..checked
            },
            Some(CorruptionReason::MissingMetadata) => ScrubResult {
                metadata_errors: (self.metadata_errors + 1) as u64,
                ..checked
            },
        }
    }

    /// How many errors were found.
    pub open spec fn errors(self) -> nat {
        (self.checksum_errors + self.read_errors + self.metadata_errors) as nat
    }

    /// No extent has more than one error.
    pub open spec fn wf(self) -> bool {
        self.errors() <= self.extents_checked
    }

    /// The result before any extent was checked.
    pub fn new(disk_id: DiskId) -> (r: Self)
        ensures
            r == Self::unchecked(disk_id),
            r.wf(),
    {
        ScrubResult {
            disk_id,
            extents_checked: 0,
            checksum_errors: 0,
            read_errors: 0,
            metadata_errors: 0,
            duration_ms: 0,
        }
    }

    /// Records how long the scrub took, given the readings of a clock in milliseconds.
    pub fn finish(&mut self, started: u64, ended: u64)
        ensures
            *final(self) == (ScrubResult {
                duration_ms: elapsed(started, ended),
                ..*old(self)
            }),
    {
        self.duration_ms =
        if started <= ended {
            ended - started
        } else {
            0
        };
    }

    /// Records that an extent was read, with the checksum of what was read or the error
    /// that reading it gave, and tells of what is wrong with it.
    pub fn record(&mut self, entry: ScrubExtentEntry, read: Result<String, String>) -> (r: Option<
        CorruptionNotification,
    >)
        requires
            old(self).wf(),
            old(self).extents_checked < u64::MAX,
        ensures
            *final(self) == old(self).after(entry.fault(read)),
            final(self).wf(),
            r == (match entry.fault(read) {
                Some(reason) => Some(
                    CorruptionNotification {
                        disk_id: old(self).disk_id,
                        extent_id: entry.extent_id,
                        reason,
                    },
                ),
                None => None,
            }),
    {
        self.extents_checked = self.extents_checked + 1;
        let reason = match read {
            Ok(actual) => {
                if same_text(actual.as_str(), entry.expected_checksum.as_str()) {
                    return None;
                }
                self.checksum_errors = self.checksum_errors + 1;
                CorruptionReason::ChecksumMismatch { expected: entry.expected_checksum, actual }
            },
            Err(e) => {
                if text_contains(e.as_str(), "metadata") {
                    self.metadata_errors = self.metadata_errors + 1;
                    CorruptionReason::MissingMetadata
                } else {
                    self.read_errors = self.read_errors + 1;
                    CorruptionReason::ReadError(e)
                }
            },
        };
        Some(
            CorruptionNotification { disk_id: self.disk_id, extent_id: entry.extent_id, reason },
        )
    }
}

/// The result of scrubbing the first extents of a disk, given what reading them gave.
pub open spec fn scrubbed(
    disk_id: DiskId,
    entries: Seq<ScrubExtentEntry>,
    reads: Seq<Result<String, String>>,
) -> ScrubResult
    decreases reads.len(),
{
    if reads.len() == 0 {
        ScrubResult::unchecked(disk_id)
    } else {
        scrubbed(disk_id, entries, reads.drop_last()).after(
            entries[reads.len() - 1].fault(reads.last()),
        )
    }
}

/// The notifications that scrubbing the first extents of a disk sends, given what reading
/// them gave.
pub open spec fn notifications(
    disk_id: DiskId,
    entries: Seq<ScrubExtentEntry>,
    reads: Seq<Result<String, String>>,
) -> Seq<CorruptionNotification>
    decreases reads.len(),
{
    if reads.len() == 0 {
        Seq::empty()
    } else {
        let before = notifications(disk_id, entries, reads.drop_last());
        let entry = entries[reads.len() - 1];
        match entry.fault(reads.last()) {
            Some(reason) => before.push(
                CorruptionNotification { disk_id, extent_id: entry.extent_id, reason },
            ),
            None => before,
        }
    }
}

/// Every extent of a disk is checked, and there is one notification for each error that
/// is counted.
pub proof fn every_error_is_notified(
    disk_id: DiskId,
    entries: Seq<ScrubExtentEntry>,
    reads: Seq<Result<String, String>>,
)
    requires
        entries.len() == reads.len(),
        entries.len() <= u64::MAX,
    ensures
        scrubbed(disk_id, entries, reads).extents_checked == entries.len(),
        scrubbed(disk_id, entries, reads).errors() == notifications(disk_id, entries, reads).len(),
        scrubbed(disk_id, entries, reads).disk_id == disk_id,
{
    lemma_scrubbed(disk_id, entries, reads);
}

proof fn lemma_scrubbed(
    disk_id: DiskId,
    entries: Seq<ScrubExtentEntry>,
    reads: Seq<Result<String, String>>,
)
    requires
        reads.len() <= entries.len(),
        reads.len() <= u64::MAX,
    ensures
        scrubbed(disk_id, entries, reads).extents_checked == reads.len(),
        scrubbed(disk_id, entries, reads).errors() == notifications(disk_id, entries, reads).len(),
        scrubbed(disk_id, entries, reads).wf(),
        scrubbed(disk_id, entries, reads).disk_id == disk_id,
    decreases reads.len(),
{
    if reads.len() > 0 {
        lemma_scrubbed(disk_id, entries, reads.drop_last());
    }
}

/// An extent that is read with the checksum that was expected causes no notification, and
/// any other extent causes one that names it.
pub proof fn corruption_is_detected(
    disk_id: DiskId,
    entries: Seq<ScrubExtentEntry>,
    reads: Seq<Result<String, String>>,
    i: int,
)
    requires
        reads.len() <= entries.len(),
        0 <= i < reads.len(),
    ensures
        entries[i].fault(reads[i]) is None <==> (reads[i] is Ok && reads[i]->Ok_0@
            == entries[i].expected_checksum@),
        entries[i].fault(reads[i]) matches Some(reason) ==> notifications(
            disk_id,
            entries,
            reads,
        ).contains(
            CorruptionNotification { disk_id, extent_id: entries[i].extent_id, reason },
        ),
    decreases reads.len(),
{
    if entries[i].fault(reads[i]) is Some {
        let all = notifications(disk_id, entries, reads);
        let before = notifications(disk_id, entries, reads.drop_last());
        let note = CorruptionNotification {
            disk_id,
            extent_id: entries[i].extent_id,
            reason: entries[i].fault(reads[i])->0,
        };
        if i == reads.len() - 1 {
            assert(all == before.push(note));
            assert(all[before.len() as int] == note);
        } else {
            corruption_is_detected(disk_id, entries, reads.drop_last(), i);
            let k = before.index_of(note);
            assert(all[k] == note);
        }
    }
}

/// The scrub of one disk: the extents that were listed, what reading each gave, and when
/// it began and ended.
pub ghost struct DiskScrub {
    pub disk_id: DiskId,
    pub entries: Seq<ScrubExtentEntry>,
    pub results: Seq<Result<(Vec<u8>, String), String>>,
    pub started: u64,
    pub ended: u64,
}

impl DiskScrub {
    /// Every extent that was listed was read, none of them goes uncounted, and the clock
    /// gave the times.
    pub open spec fn is_by<C: Fn() -> u64>(self, clock: C) -> bool {
        &&& self.results.len() == self.entries.len() <= usize::MAX
        &&& self.result().extents_checked == self.entries.len()
        &&& self.result().errors() == self.notes().len()
        &&& clock.ensures((), self.started)
        &&& clock.ensures((), self.ended)
    }

    /// The calls that the reader gets for the scrub.
    pub open spec fn calls(self) -> Seq<ScrubCall> {
        seq![ScrubCall::Extents { disk_id: self.disk_id, entries: self.entries }] + read_calls(
            self.disk_id,
            self.entries,
            self.results,
        )
    }

    /// The result of the scrub.
    pub open spec fn result(self) -> ScrubResult {
        ScrubResult {
            duration_ms: elapsed(self.started, self.ended),
            ..scrubbed(self.disk_id, self.entries, checksums_read(self.results))
        }
    }

    /// The notifications that the scrub sends.
    pub open spec fn notes(self) -> Seq<CorruptionNotification> {
        notifications(self.disk_id, self.entries, checksums_read(self.results))
    }
}

/// The disks that were scrubbed.
pub open spec fn pass_disks(scrubs: Seq<DiskScrub>) -> Seq<DiskId> {
    Seq::new(scrubs.len(), |i: int| scrubs[i].disk_id)
}

/// The results of the scrubs of several disks.
pub open spec fn pass_results(scrubs: Seq<DiskScrub>) -> Seq<ScrubResult> {
    Seq::new(scrubs.len(), |i: int| scrubs[i].result())
}

/// The notifications that the scrubs of several disks send.
pub open spec fn pass_notes(scrubs: Seq<DiskScrub>) -> Seq<CorruptionNotification>
    decreases scrubs.len(),
{
    if scrubs.len() == 0 {
        Seq::empty()
    } else {
        pass_notes(scrubs.drop_last()) + scrubs.last().notes()
    }
}

/// The calls that the reader gets for the scrubs of several disks.
pub open spec fn pass_calls(scrubs: Seq<DiskScrub>) -> Seq<ScrubCall>
    decreases scrubs.len(),
{
    if scrubs.len() == 0 {
        Seq::empty()
    } else {
        pass_calls(scrubs.drop_last()) + scrubs.last().calls()
    }
}

/// Background scrub worker.
///
/// Periodically scans all extent files, verifies checksum integrity,
/// and reports corruption for repair.
#[derive(Clone, Debug)]
pub struct ScrubWorker {
    pub config: ScrubConfig,
    pub results: Vec<ScrubResult>,
}

impl ScrubWorker {
    /// Create a new scrub worker.
    pub fn new(config: ScrubConfig) -> (r: Self)
        ensures
            r.config == config,
            r.results@ == Seq::<ScrubResult>::empty(),
    {
        ScrubWorker { config, results: Vec::new() }
    }

    /// Get configuration.
    pub fn config(&self) -> (r: &ScrubConfig)
        ensures
            *r == self.config,
    {
        &self.config
    }

    /// Perform a single scrub pass over all disks.
    ///
    /// Reads each extent, verifies checksum, and hands corruption notifications out. The
    /// clock counts milliseconds. Whatever the reader lists and reads, the results are
    /// those of the disks in turn, every extent listed is checked, and the results become
    /// the most recent ones.
    pub fn scrub_pass<R: ExtentReader, C: Fn() -> u64>(
        &mut self,
        reader: &mut R,
        clock: &C,
        corruptions: &mut Vec<CorruptionNotification>,
    ) -> (r: Vec<ScrubResult>)
        requires
            clock.requires(()),
        ensures
            final(self).config == old(self).config,
            final(self).results@ == r@,
            exists|scrubs: Seq<DiskScrub>|
                {
                    &&& forall|i: int| 0 <= i < scrubs.len() ==> (#[trigger] scrubs[i]).is_by(*clock)
                    &&& final(reader).calls() == old(reader).calls().push(
                        ScrubCall::Disks { disks: pass_disks(scrubs) },
                    ) + pass_calls(scrubs)
                    &&& r@ == #[trigger] pass_results(scrubs)
                    &&& final(corruptions)@ == old(corruptions)@ + pass_notes(scrubs)
                },
    {
        let disks = reader.list_disks();
        let mut results: Vec<ScrubResult> = Vec::new();
        let ghost mut scrubs: Seq<DiskScrub> = Seq::empty();
        let ghost sent = corruptions@;
        let ghost called = reader.calls();
        assert(results@ =~= pass_results(scrubs));
        assert(sent + pass_notes(scrubs) =~= sent);
        assert(called + pass_calls(scrubs) =~= called);
        assert(pass_disks(scrubs) =~= disks@.take(0));
        let mut i: usize = 0;
        while i < disks.len()
            invariant
                i <= disks@.len(),
                clock.requires(()),
                sent == old(corruptions)@,
                pass_disks(scrubs) == disks@.take(i as int),
                forall|j: int| 0 <= j < scrubs.len() ==> (#[trigger] scrubs[j]).is_by(*clock),
                reader.calls() == called + pass_calls(scrubs),
                results@ == pass_results(scrubs),
                corruptions@ == sent + pass_notes(scrubs),
                self.config == old(self).config,
            decreases disks@.len() - i,
        {
            let disk_id = disks[i];
            let ghost notes_before = corruptions@;
            let ghost calls_before = reader.calls();
            let result = self.scrub_disk(disk_id, reader, clock, corruptions);
            proof {
                let scrub = choose|scrub: DiskScrub|
                    {
                        &&& #[trigger] scrub.is_by(*clock)
                        &&& scrub.disk_id == disk_id
                        &&& reader.calls() == calls_before + scrub.calls()
                        &&& result == scrub.result()
                        &&& corruptions@ == notes_before + scrub.notes()
                    };
                let earlier = scrubs;
                scrubs = scrubs.push(scrub);
                assert(scrubs.drop_last() =~= earlier);
                assert(reader.calls() =~= called + pass_calls(scrubs));
                assert(corruptions@ =~= sent + pass_notes(scrubs));
                assert(results@.push(result) =~= pass_results(scrubs));
                assert(pass_disks(earlier).len() == i);
                assert forall|j: int| 0 <= j < i + 1 implies #[trigger] pass_disks(scrubs)[j]
                    == disks@.take(i + 1)[j] by {
                    if j < i {
                        assert(pass_disks(earlier)[j] == disks@.take(i as int)[j]);
                        assert(scrubs[j] == earlier[j]);
                    }
                }
                assert(pass_disks(scrubs) =~= disks@.take(i + 1));
            }
            results.push(result);
            i = i + 1;
        }
        assert(disks@.take(disks@.len() as int) =~= disks@);
        self.store_results(&results);
        results
    }

    /// Records the results of a scrub pass.
    pub fn store_results(&mut self, results: &Vec<ScrubResult>)
        ensures
            final(self).config == old(self).config,
            final(self).results@ == results@,
    {
        self.results = crate::collections::copy_items(results);
    }

    /// Scrub a single disk: read every extent on it, and hand out what is wrong.
    pub fn scrub_disk<R: ExtentReader, C: Fn() -> u64>(
        &self,
        disk_id: DiskId,
        reader: &mut R,
        clock: &C,
        corruptions: &mut Vec<CorruptionNotification>,
    ) -> (r: ScrubResult)
        requires
            clock.requires(()),
        ensures
            exists|scrub: DiskScrub|
                {
                    &&& #[trigger] scrub.is_by(*clock)
                    &&& scrub.disk_id == disk_id
                    &&& final(reader).calls() == old(reader).calls() + scrub.calls()
                    &&& r == scrub.result()
                    &&& r.extents_checked == scrub.entries.len()
                    &&& final(corruptions)@ == old(corruptions)@ + scrub.notes()
                },
            r.wf(),
            final(corruptions)@.len() == old(corruptions)@.len() + r.errors(),
    {
        let started = clock();
        let ghost called = reader.calls();
        let ghost sent = corruptions@;
        let entries = reader.list_extents(disk_id);
        let ghost all = entries@;
        let count = entries.len();
        let ghost first = seq![ScrubCall::Extents { disk_id, entries: all }];
        let ghost mut results: Seq<Result<(Vec<u8>, String), String>> = Seq::empty();
        let mut result = ScrubResult::new(disk_id);
        assert(reader.calls() =~= called + (first + read_calls(disk_id, all, results)));
        assert(sent + notifications(disk_id, all, checksums_read(results)) =~= sent);
        for entry in it: entries
            invariant
                it.seq() == all,
                results.len() == it.index(),
                reader.calls() == called + (first + read_calls(disk_id, all, results)),
                count == all.len(),
                result == scrubbed(disk_id, all, checksums_read(results)),
                result.disk_id == disk_id,
                result.wf(),
                result.extents_checked == results.len(),
                corruptions@ == sent + notifications(disk_id, all, checksums_read(results)),
        {
            let full = reader.read_extent(disk_id, entry.extent_id, entry.version);
            let ghost given = full;
            let read: Result<String, String> = match full {
                Ok(data_and_sum) => Ok(data_and_sum.1),
                Err(e) => Err(e),
            };
            let ghost before = results;
            proof {
                assert(checksum_read(given) == read);
                results = results.push(given);
                assert(all[it.index() as int] == entry);
                assert(reader.calls() =~= called + (first + read_calls(disk_id, all, results)));
                assert(checksums_read(results).drop_last() =~= checksums_read(before));
                assert(checksums_read(results).last() == read);
            }
            match result.record(entry, read) {
                Some(note) => {
                    corruptions.push(note);
                },
                None => {},
            }
            assert(corruptions@ =~= sent + notifications(disk_id, all, checksums_read(results)));
        }
        let ended = clock();
        result.finish(started, ended);
        proof {
            let scrub = DiskScrub { disk_id, entries: all, results, started, ended };
            lemma_scrubbed(disk_id, all, checksums_read(results));
            assert(scrub.is_by(*clock));
        }
        result
    }

    /// Get the most recent scrub results.
    pub fn last_results(&self) -> (r: &Vec<ScrubResult>)
        ensures
            r@ == self.results@,
    {
        &self.results
    }
}

/// What is wrong with an extent follows from its read alone: another checksum than expected
/// is a mismatch of just these two; a failed read that speaks of metadata is missing
/// metadata, and any other is a read error with the reader's words.
pub proof fn faults_say_what_is_wrong(entry: ScrubExtentEntry, read: Result<String, String>)
    ensures
        match read {
            Ok(actual) => {
                &&& actual@ == entry.expected_checksum@ ==> entry.fault(read) is None
                &&& actual@ != entry.expected_checksum@ ==> entry.fault(read) == Some(
                    CorruptionReason::ChecksumMismatch {
                        expected: entry.expected_checksum,
                        actual,
                    },
                )
            },
            Err(e) => {
                let speaks_of_metadata = exists|at: int|
                    0 <= at && at + 8 <= e@.len() && #[trigger] e@.subrange(at, at + 8)
                        == "metadata"@;
                &&& speaks_of_metadata ==> entry.fault(read) == Some(
                    CorruptionReason::MissingMetadata,
                )
                &&& !speaks_of_metadata ==> entry.fault(read) == Some(
                    CorruptionReason::ReadError(e),
                )
            },
        },
{
    reveal_strlit("metadata");
    if let Err(e) = read {
        if contains_text(e@, "metadata"@) {
            let at = choose|at: int| crate::text::stands_at(e@, "metadata"@, at);
            assert(e@.subrange(at, at + 8) == "metadata"@);
        }
        if exists|at: int|
            0 <= at && at + 8 <= e@.len() && #[trigger] e@.subrange(at, at + 8) == "metadata"@ {
            let at = choose|at: int|
                0 <= at && at + 8 <= e@.len() && #[trigger] e@.subrange(at, at + 8) == "metadata"@;
            assert(crate::text::stands_at(e@, "metadata"@, at));
        }
    }
}

/// Each kind of error is counted as often as it is notified.
pub proof fn errors_are_counted_by_kind(
    disk_id: DiskId,
    entries: Seq<ScrubExtentEntry>,
    reads: Seq<Result<String, String>>,
)
    requires
        reads.len() <= entries.len(),
        reads.len() <= u64::MAX,
    ensures
        ({
            let result = scrubbed(disk_id, entries, reads);
            let notes = notifications(disk_id, entries, reads);
            &&& result.extents_checked == reads.len()
            &&& result.checksum_errors == notes.filter(
                |n: CorruptionNotification| n.reason is ChecksumMismatch,
            ).len()
            &&& result.read_errors == notes.filter(
                |n: CorruptionNotification| n.reason is ReadError,
            ).len()
            &&& result.metadata_errors == notes.filter(
                |n: CorruptionNotification| n.reason is MissingMetadata,
            ).len()
            &&& forall|i: int|
                0 <= i < notes.len() ==> (#[trigger] notes[i]).disk_id == disk_id
        }),
    decreases reads.len(),
{
    reveal(Seq::filter);
    if reads.len() > 0 {
        let front = reads.drop_last();
        errors_are_counted_by_kind(disk_id, entries, front);
        lemma_scrubbed(disk_id, entries, front);
        let before = notifications(disk_id, entries, front);
        let notes = notifications(disk_id, entries, reads);
        if notes.len() > before.len() {
            assert(notes.drop_last() =~= before);
        }
    }
}

/// A scrub takes the time between its two readings of the clock.
pub proof fn scrubs_take_the_time_between(started: u64, ended: u64)
    ensures
        started <= ended ==> elapsed(started, ended) == ended - started,
        ended < started ==> elapsed(started, ended) == 0,
{
}

/// A scrub lists the extents of its disk and then reads each of them once, in order, in the
/// version that was listed.
pub proof fn scrubs_read_every_extent<C: Fn() -> u64>(scrub: DiskScrub, clock: C)
    requires
        scrub.is_by(clock),
    ensures
        scrub.calls().len() == 1 + scrub.entries.len(),
        scrub.calls()[0] == (ScrubCall::Extents {
            disk_id: scrub.disk_id,
            entries: scrub.entries,
        }),
        forall|i: int|
            0 <= i < scrub.entries.len() ==> scrub.calls()[1 + i] == (ScrubCall::Read {
                disk_id: scrub.disk_id,
                extent_id: (#[trigger] scrub.entries[i]).extent_id,
                version: scrub.entries[i].version,
                result: scrub.results[i],
            }),
        scrub.result().disk_id == scrub.disk_id,
        scrub.result().extents_checked == scrub.entries.len(),
        scrub.started <= scrub.ended ==> scrub.result().duration_ms == scrub.ended - scrub.started,
{
    lemma_scrubbed(scrub.disk_id, scrub.entries, checksums_read(scrub.results));
}

/// A pass over several disks is the scrubs of its disks one after another: their results,
/// their notifications and their calls, in order.
pub proof fn passes_go_disk_by_disk(scrubs: Seq<DiskScrub>, i: int)
    requires
        0 <= i < scrubs.len(),
    ensures
        pass_results(scrubs).len() == scrubs.len(),
        pass_results(scrubs)[i] == scrubs[i].result(),
        pass_disks(scrubs).len() == scrubs.len(),
        pass_disks(scrubs)[i] == scrubs[i].disk_id,
        pass_notes(scrubs.take(i + 1)) == pass_notes(scrubs.take(i)) + scrubs[i].notes(),
        pass_calls(scrubs.take(i + 1)) == pass_calls(scrubs.take(i)) + scrubs[i].calls(),
        pass_notes(scrubs.take(0)).len() == 0,
        pass_calls(scrubs.take(0)).len() == 0,
        pass_notes(scrubs.take(scrubs.len() as int)) == pass_notes(scrubs),
        pass_calls(scrubs.take(scrubs.len() as int)) == pass_calls(scrubs),
{
    assert(scrubs.take(i + 1).drop_last() =~= scrubs.take(i));
    assert(scrubs.take(i + 1).last() == scrubs[i]);
    assert(scrubs.take(scrubs.len() as int) =~= scrubs);
}

/// Of each read the checksum counts, or the error, and nothing is left out.
pub proof fn reads_tell_of_checksums(results: Seq<Result<(Vec<u8>, String), String>>, i: int)
    requires
        0 <= i < results.len(),
    ensures
        checksums_read(results).len() == results.len(),
        results[i] matches Ok(read) ==> checksums_read(results)[i] == Ok::<String, String>(read.1),
        results[i] matches Err(e) ==> checksums_read(results)[i] == Err::<String, String>(e),
{
}

} // verus!
