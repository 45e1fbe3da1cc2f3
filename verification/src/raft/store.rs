//! In-memory log store and state machine store.
//!
//! Crash recovery needs no code of its own: on restart the committed log is
//! applied again in order, from the last snapshot on.

use crate::collections::sorted_indexes;
use crate::raft::model::MetadataModel;
use crate::raft::response::{Answer, MetadataResponse};
use crate::raft::state_machine::MetadataStateMachineData;
use crate::raft::typ::{
    Entry, EntryPayload, LogId, StoredMembership, StoredMembershipModel, Vote,
};
use crate::text::{decimal, decimal_text, join2, join3};
use std::collections::BTreeMap;
use vstd::prelude::*;

verus! {

broadcast use vstd::std_specs::btree::group_btree_axioms;

/// The first and the last position that a log store knows of.
#[derive(Clone, Copy, Debug, PartialEq, Eq, Structural)]
pub struct LogState {
    pub last_purged_log_id: Option<LogId>,
    pub last_log_id: Option<LogId>,
}

/// A log after entries were written into it, each at its own index.
pub open spec fn with_entries(log: Map<u64, Entry>, entries: Seq<Entry>) -> Map<u64, Entry>
    decreases entries.len(),
{
    if entries.len() == 0 {
        log
    } else {
        with_entries(log, entries.drop_last()).insert(entries.last().log_id.index, entries.last())
    }
}

/// In-memory Raft log store.
#[derive(Clone, Debug)]
pub struct LogStore {
    pub vote: Option<Vote>,
    pub log: BTreeMap<u64, Entry>,
    pub last_purged: Option<LogId>,
}

impl Default for LogStore {
    fn default() -> (r: Self)
        ensures
            r.vote is None,
            r.log@ == Map::<u64, Entry>::empty(),
            r.last_purged is None,
    {
        LogStore { vote: None, log: BTreeMap::new(), last_purged: None }
    }
}

/// Whether every entry of a log stands under its own index.
pub open spec fn indexed(log: Map<u64, Entry>) -> bool {
    forall|k: u64| #[trigger] log.contains_key(k) ==> log[k].log_id.index == k
}

/// Whether a list holds, in order, the entries of a log in an inclusive range.
pub open spec fn lists_range(log: Map<u64, Entry>, first: u64, last: u64, r: Seq<&Entry>) -> bool {
    &&& forall|i: int|
        0 <= i < r.len() ==> first <= (#[trigger] r[i]).log_id.index <= last && log.contains_key(
            r[i].log_id.index,
        ) && *r[i] == log[r[i].log_id.index]
    &&& forall|i: int, j: int|
        0 <= i < j < r.len() ==> (#[trigger] r[i]).log_id.index < (#[trigger] r[j]).log_id.index
    &&& forall|k: u64| #[trigger]
        log.contains_key(k) && first <= k <= last ==> exists|i: int|
            0 <= i < r.len() && (#[trigger] r[i]).log_id.index == k
}

/// Writing entries keeps every entry under its own index.
pub proof fn lemma_with_entries_indexed(log: Map<u64, Entry>, entries: Seq<Entry>)
    requires
        indexed(log),
    ensures
        indexed(with_entries(log, entries)),
    decreases entries.len(),
{
    if entries.len() > 0 {
        lemma_with_entries_indexed(log, entries.drop_last());
    }
}

/// What was appended is what is read: the last entry written at an index stands
/// there, and the indexes that no entry names keep what they had.
pub proof fn appended_entries_are_read(log: Map<u64, Entry>, entries: Seq<Entry>, index: u64)
    ensures
        (forall|i: int| 0 <= i < entries.len() ==> (#[trigger] entries[i]).log_id.index != index)
            ==> with_entries(log, entries).contains_key(index) == log.contains_key(index)
            && with_entries(log, entries)[index] == log[index],
        forall|i: int|
            0 <= i < entries.len() && (#[trigger] entries[i]).log_id.index == index && (forall|
                j: int,
            |
                i < j < entries.len() ==> (#[trigger] entries[j]).log_id.index != index)
                ==> with_entries(log, entries).contains_key(index) && with_entries(
                log,
                entries,
            )[index] == entries[i],
    decreases entries.len(),
{
    if entries.len() > 0 {
        let front = entries.drop_last();
        appended_entries_are_read(log, front, index);
        if (forall|i: int| 0 <= i < entries.len() ==> (#[trigger] entries[i]).log_id.index != index) {
            assert forall|i: int| 0 <= i < front.len() implies (#[trigger] front[i]).log_id.index
                != index by {
                assert(front[i] == entries[i]);
            }
            assert(entries[entries.len() - 1].log_id.index != index);
        }
        assert forall|i: int|
            0 <= i < entries.len() && (#[trigger] entries[i]).log_id.index == index && (forall|
                j: int,
            |
                i < j < entries.len() ==> (#[trigger] entries[j]).log_id.index
                    != index) implies with_entries(log, entries).contains_key(index)
            && with_entries(log, entries)[index] == entries[i] by {
            if i < entries.len() - 1 {
                assert(entries[entries.len() - 1].log_id.index != index);
                assert(front[i] == entries[i]);
                assert forall|j: int| i < j < front.len() implies (#[trigger] front[j]).log_id.index
                    != index by {
                    assert(front[j] == entries[j]);
                }
            }
        }
    }
}

impl LogStore {
    /// An empty log.
    pub fn new() -> (r: Self)
        ensures
            r.vote is None,
            r.log@ == Map::<u64, Entry>::empty(),
            r.last_purged is None,
    {
        Self::default()
    }

    /// Writes the vote down.
    pub fn save_vote(&mut self, vote: &Vote)
        ensures
            final(self).vote == Some(*vote),
            final(self).log@ == old(self).log@,
            final(self).last_purged == old(self).last_purged,
    {
        self.vote = Some(*vote);
    }

    /// The vote that was written down last.
    pub fn read_vote(&self) -> (r: Option<Vote>)
        ensures
            r == self.vote,
    {
        self.vote
    }

    /// Writes entries into the log, each at its own index.
    pub fn append(&mut self, entries: Vec<Entry>)
        ensures
            final(self).log@ == with_entries(old(self).log@, entries@),
            indexed(old(self).log@) ==> indexed(final(self).log@),
            final(self).vote == old(self).vote,
            final(self).last_purged == old(self).last_purged,
    {
        let ghost all = entries@;
        let ghost start = self.log@;
        assert(all.take(0) =~= Seq::empty());
        for entry in it: entries
            invariant
                it.seq() == all,
                self.log@ == with_entries(start, all.take(it.index() as int)),
                self.vote == old(self).vote,
                self.last_purged == old(self).last_purged,
        {
            assert(all.take(it.index() + 1).drop_last() =~= all.take(it.index() as int));
            assert(all[it.index() as int] == entry);
            self.log.insert(entry.log_id.index, entry);
        }
        proof {
            assert(all.take(all.len() as int) =~= all);
            if indexed(start) {
                lemma_with_entries_indexed(start, all);
            }
        }
    }

    /// The entries from index `first` to index `last`, both included, in order.
    pub fn try_get_log_entries(&self, first: u64, last: u64) -> (r: Vec<&Entry>)
        requires
            indexed(self.log@),
        ensures
            lists_range(self.log@, first, last, r@),
            forall|i: int|
                0 <= i < r@.len() ==> first <= (#[trigger] r@[i]).log_id.index <= last
                    && self.log@.contains_key(r@[i].log_id.index) && *r@[i]
                    == self.log@[r@[i].log_id.index],
            forall|i: int, j: int|
                0 <= i < j < r@.len() ==> (#[trigger] r@[i]).log_id.index < (
                #[trigger] r@[j]).log_id.index,
            forall|k: u64| #[trigger]
                self.log@.contains_key(k) && first <= k <= last ==> exists|i: int|
                    0 <= i < r@.len() && (#[trigger] r@[i]).log_id.index == k,
    {
        let keys = sorted_indexes(&self.log);
        let mut r: Vec<&Entry> = Vec::new();
        let mut i: usize = 0;
        while i < keys.len()
            invariant
                i <= keys@.len(),
                indexed(self.log@),
                forall|a: int, b: int|
                    0 <= a < b < keys@.len() ==> #[trigger] keys@[a] < #[trigger] keys@[b],
                forall|k: u64| #[trigger] self.log@.contains_key(k) <==> keys@.contains(k),
                forall|j: int|
                    0 <= j < r@.len() ==> first <= (#[trigger] r@[j]).log_id.index <= last
                        && self.log@.contains_key(r@[j].log_id.index) && *r@[j]
                        == self.log@[r@[j].log_id.index],
                forall|a: int, b: int|
                    0 <= a < b < r@.len() ==> (#[trigger] r@[a]).log_id.index < (
                    #[trigger] r@[b]).log_id.index,
                forall|j: int, m: int|
                    0 <= j < r@.len() && i <= m < keys@.len() ==> (#[trigger] r@[j]).log_id.index
                        < #[trigger] keys@[m],
                forall|m: int|
                    0 <= m < i && first <= #[trigger] keys@[m] <= last ==> exists|j: int|
                        0 <= j < r@.len() && (#[trigger] r@[j]).log_id.index == keys@[m],
            decreases keys@.len() - i,
        {
            let k = keys[i];
            assert(keys@.contains(k));
            let ghost before = r@;
            if first <= k && k <= last {
                match self.log.get(&k) {
                    Some(e) => {
                        r.push(e);
                    },
                    None => {
                        assert(false);
                    },
                }
                assert forall|m: int|
                    0 <= m < i + 1 && first <= #[trigger] keys@[m] <= last implies exists|j: int|
                    0 <= j < r@.len() && (#[trigger] r@[j]).log_id.index == keys@[m] by {
                    if m < i {
                        let j = choose|j: int|
                            0 <= j < before.len() && (#[trigger] before[j]).log_id.index
                                == keys@[m];
                        assert(r@[j].log_id.index == keys@[m]);
                    } else {
                        assert(r@[before.len() as int].log_id.index == keys@[m]);
                    }
                }
            }
            i = i + 1;
        }
        assert forall|k: u64| #[trigger]
            self.log@.contains_key(k) && first <= k <= last implies exists|j: int|
            0 <= j < r@.len() && (#[trigger] r@[j]).log_id.index == k by {
            assert(keys@.contains(k));
            let m = choose|m: int| 0 <= m < keys@.len() && keys@[m] == k;
            assert(first <= keys@[m] <= last);
        }
        r
    }

    /// The last position in the log, and the last one that was purged.
    pub fn get_log_state(&self) -> (r: LogState)
        ensures
            r.last_purged_log_id == self.last_purged,
            self.log@.len() == 0 ==> r.last_log_id is None,
            self.log@.len() != 0 ==> exists|k: u64|
                {
                    &&& #[trigger] self.log@.contains_key(k)
                    &&& r.last_log_id == Some(self.log@[k].log_id)
                    &&& forall|j: u64| #[trigger] self.log@.contains_key(j) ==> j <= k
                },
    {
        let keys = sorted_indexes(&self.log);
        if keys.len() == 0 {
            return LogState { last_purged_log_id: self.last_purged, last_log_id: None };
        }
        let k = keys[keys.len() - 1];
        assert(keys@.contains(k));
        proof {
            assert forall|j: u64| #[trigger] self.log@.contains_key(j) implies j <= k by {
                let i = choose|i: int| 0 <= i < keys@.len() && keys@[i] == j;
                if i < keys@.len() - 1 {
                    assert(keys@[i] < keys@[keys@.len() - 1]);
                }
            }
        }
        match self.log.get(&k) {
            Some(e) => LogState {
                last_purged_log_id: self.last_purged,
                last_log_id: Some(e.log_id),
            },
            None => {
                assert(false);
                LogState { last_purged_log_id: self.last_purged, last_log_id: None }
            },
        }
    }

    /// Takes out the entries whose index lies in an inclusive range.
    fn remove_range(&mut self, first: u64, last: u64)
        ensures
            final(self).log@ == old(self).log@.remove_keys(
                Set::new(|k: u64| first <= k <= last),
            ),
            final(self).vote == old(self).vote,
            final(self).last_purged == old(self).last_purged,
    {
        let keys = sorted_indexes(&self.log);
        let ghost start = self.log@;
        let mut i: usize = 0;
        while i < keys.len()
            invariant
                i <= keys@.len(),
                forall|k: u64| #[trigger] start.contains_key(k) <==> keys@.contains(k),
                self.log@ == start.remove_keys(
                    Set::new(|k: u64| first <= k <= last && keys@.take(i as int).contains(k)),
                ),
                self.vote == old(self).vote,
                self.last_purged == old(self).last_purged,
            decreases keys@.len() - i,
        {
            let k = keys[i];
            if first <= k && k <= last {
                self.log.remove(&k);
            }
            i = i + 1;
            proof {
                let then = keys@.take(i - 1);
                let now = keys@.take(i as int);
                assert(now =~= then.push(k));
                assert forall|x: u64| #[trigger] now.contains(x) <==> then.contains(x) || x == k by {
                    if then.contains(x) {
                        let j = choose|j: int| 0 <= j < then.len() && then[j] == x;
                        assert(now[j] == x);
                    }
                    assert(now[i - 1] == k);
                    if now.contains(x) && x != k {
                        let j = choose|j: int| 0 <= j < now.len() && now[j] == x;
                        assert(then[j] == x);
                    }
                }
                assert(self.log@ =~= start.remove_keys(
                    Set::new(|x: u64| first <= x <= last && now.contains(x)),
                ));
            }
        }
        assert(keys@.take(keys@.len() as int) =~= keys@);
        assert(self.log@ =~= start.remove_keys(Set::new(|k: u64| first <= k <= last)));
    }

    /// Drops the entry at the given position and everything after it.
    pub fn truncate(&mut self, log_id: LogId)
        ensures
            final(self).log@ == old(self).log@.remove_keys(Set::new(|k: u64| log_id.index <= k)),
            indexed(old(self).log@) ==> indexed(final(self).log@),
            final(self).vote == old(self).vote,
            final(self).last_purged == old(self).last_purged,
    {
        self.remove_range(log_id.index, u64::MAX);
        assert(self.log@ =~= old(self).log@.remove_keys(Set::new(|k: u64| log_id.index <= k)));
    }

    /// Drops the entry at the given position and everything before it, and
    /// remembers the position.
    pub fn purge(&mut self, log_id: LogId)
        ensures
            final(self).log@ == old(self).log@.remove_keys(Set::new(|k: u64| k <= log_id.index)),
            indexed(old(self).log@) ==> indexed(final(self).log@),
            final(self).vote == old(self).vote,
            final(self).last_purged == Some(log_id),
    {
        self.remove_range(0, log_id.index);
        self.last_purged = Some(log_id);
        assert(self.log@ =~= old(self).log@.remove_keys(Set::new(|k: u64| k <= log_id.index)));
    }
}

/// How a log entry changes the metadata, and the answer to it.
pub open spec fn entry_applied(m: MetadataModel, payload: EntryPayload) -> (MetadataModel, Answer) {
    match payload {
        EntryPayload::Blank => (m, Answer::Done),
        EntryPayload::Normal(req) => m.apply(req),
        EntryPayload::Membership(_) => (m, Answer::Done),
    }
}

/// The metadata after a sequence of log entries.
pub open spec fn entries_applied(m: MetadataModel, entries: Seq<Entry>) -> MetadataModel
    decreases entries.len(),
{
    if entries.len() == 0 {
        m
    } else {
        entry_applied(entries_applied(m, entries.drop_last()), entries.last().payload).0
    }
}

/// The answers to a sequence of log entries.
pub open spec fn entries_answers(m: MetadataModel, entries: Seq<Entry>) -> Seq<Answer>
    decreases entries.len(),
{
    if entries.len() == 0 {
        Seq::empty()
    } else {
        entries_answers(m, entries.drop_last()).push(
            entry_applied(entries_applied(m, entries.drop_last()), entries.last().payload).1,
        )
    }
}

/// Whether the numbers that a sequence of log entries makes fit.
pub open spec fn entries_fit(m: MetadataModel, entries: Seq<Entry>) -> bool
    decreases entries.len(),
{
    if entries.len() == 0 {
        true
    } else {
        &&& entries_fit(m, entries.drop_last())
        &&& entries.last().payload matches EntryPayload::Normal(req) ==> entries_applied(
            m,
            entries.drop_last(),
        ).fits(req)
    }
}

/// The membership after a sequence of log entries.
pub open spec fn membership_after(
    before: StoredMembershipModel,
    entries: Seq<Entry>,
) -> StoredMembershipModel
    decreases entries.len(),
{
    if entries.len() == 0 {
        before
    } else {
        match entries.last().payload {
            EntryPayload::Membership(mem) => StoredMembershipModel {
                log_id: Some(entries.last().log_id),
                membership: mem@,
            },
            _ => membership_after(before, entries.drop_last()),
        }
    }
}

/// The position of the last of a sequence of log entries.
pub open spec fn position_after(before: Option<LogId>, entries: Seq<Entry>) -> Option<LogId> {
    if entries.len() == 0 {
        before
    } else {
        Some(entries.last().log_id)
    }
}

/// The views of a list of answers.
pub open spec fn answer_views(r: Seq<MetadataResponse>) -> Seq<Answer> {
    r.map_values(|x: MetadataResponse| x@)
}

proof fn lemma_entries_fit_prefix(m: MetadataModel, entries: Seq<Entry>, count: int)
    requires
        0 <= count <= entries.len(),
        entries_fit(m, entries),
    ensures
        entries_fit(m, entries.take(count)),
    decreases entries.len(),
{
    if count == entries.len() {
        assert(entries.take(count) =~= entries);
    } else {
        assert(entries.drop_last().take(count) =~= entries.take(count));
        lemma_entries_fit_prefix(m, entries.drop_last(), count);
    }
}

/// Recovery: applying the rest of the log on what a snapshot of its first part
/// holds gives what applying the whole log gives.
pub proof fn recovery_from_snapshot(m: MetadataModel, first: Seq<Entry>, rest: Seq<Entry>)
    ensures
        entries_applied(m, first + rest) == entries_applied(entries_applied(m, first), rest),
        entries_answers(m, first + rest) == entries_answers(m, first) + entries_answers(
            entries_applied(m, first),
            rest,
        ),
    decreases rest.len(),
{
    if rest.len() == 0 {
        assert(first + rest =~= first);
        assert(entries_answers(m, first) + Seq::<Answer>::empty() =~= entries_answers(m, first));
    } else {
        assert((first + rest).drop_last() =~= first + rest.drop_last());
        assert((first + rest).last() == rest.last());
        recovery_from_snapshot(m, first, rest.drop_last());
        assert(entries_answers(m, first + rest) =~= entries_answers(m, first) + entries_answers(
            entries_applied(m, first),
            rest,
        ));
    }
}

/// What identifies a snapshot.
#[derive(Clone, Debug)]
pub struct SnapshotMeta {
    pub last_log_id: Option<LogId>,
    pub last_membership: StoredMembership,
    pub snapshot_id: String,
}

impl SnapshotMeta {
    /// Whether two descriptions say the same.
    pub open spec fn says_as(self, other: SnapshotMeta) -> bool {
        &&& self.last_log_id == other.last_log_id
        &&& self.last_membership@ == other.last_membership@
        &&& self.snapshot_id@ == other.snapshot_id@
    }

    /// A copy.
    pub fn copy(&self) -> (r: Self)
        ensures
            r.last_log_id == self.last_log_id,
            r.last_membership@ == self.last_membership@,
            r.snapshot_id@ == self.snapshot_id@,
    {
        SnapshotMeta {
            last_log_id: self.last_log_id,
            last_membership: self.last_membership.copy(),
            snapshot_id: self.snapshot_id.clone(),
        }
    }
}

/// A snapshot: what identifies it, and the serialized state.
#[derive(Clone, Debug)]
pub struct StoredSnapshot {
    pub meta: SnapshotMeta,
    pub data: Vec<u8>,
}

/// The name of a snapshot: the position it was taken at and its number, or two
/// hyphens and its number where nothing was applied yet.
pub open spec fn snapshot_name(last_applied: Option<LogId>, number: u64) -> Seq<char> {
    match last_applied {
        Some(last) => last.text() + "-"@ + decimal(number as nat),
        None => "--"@ + decimal(number as nat),
    }
}

/// The name of a snapshot.
pub fn make_snapshot_name(last_applied: Option<LogId>, number: u64) -> (s: String)
    ensures
        s@ == snapshot_name(last_applied, number),
{
    match last_applied {
        Some(last) => join3(last.to_text().as_str(), "-", decimal_text(number).as_str()),
        None => join2("--", decimal_text(number).as_str()),
    }
}

/// Applies log entries to the state machine, in order.
pub fn apply_entries(data: &mut MetadataStateMachineData, entries: Vec<Entry>) -> (r: Vec<
    MetadataResponse,
>)
    requires
        old(data)@.has_tables(),
        entries_fit(old(data)@, entries@),
    ensures
        final(data)@ == entries_applied(old(data)@, entries@),
        final(data)@.has_tables(),
        old(data)@.wf() ==> final(data)@.wf(),
        final(data).last_applied == position_after(old(data).last_applied, entries@),
        final(data).last_membership@ == membership_after(old(data).last_membership@, entries@),
        answer_views(r@) == entries_answers(old(data)@, entries@),
{
    let ghost all = entries@;
    let ghost start = data@;
    let ghost position = data.last_applied;
    let ghost membership = data.last_membership@;
    let mut responses: Vec<MetadataResponse> = Vec::new();
    assert(all.take(0) =~= Seq::empty());
    assert(answer_views(responses@) =~= Seq::empty());
    for entry in it: entries
        invariant
            it.seq() == all,
            start == old(data)@,
            entries_fit(start, all),
            data@.has_tables(),
            start.wf() ==> data@.wf(),
            data@ == entries_applied(start, all.take(it.index() as int)),
            data.last_applied == position_after(position, all.take(it.index() as int)),
            data.last_membership@ == membership_after(membership, all.take(it.index() as int)),
            answer_views(responses@) == entries_answers(start, all.take(it.index() as int)),
    {
        let ghost now = all.take(it.index() + 1);
        let ghost had = responses@;
        proof {
            assert(now.drop_last() =~= all.take(it.index() as int));
            assert(all[it.index() as int] == entry);
            lemma_entries_fit_prefix(start, all, it.index() + 1);
        }
        data.last_applied = Some(entry.log_id);
        match entry.payload {
            EntryPayload::Blank => {
                responses.push(MetadataResponse::ok());
            },
            EntryPayload::Normal(req) => {
                let resp = data.apply_request(&req);
                responses.push(resp);
            },
            EntryPayload::Membership(membership) => {
                data.last_membership =
                StoredMembership { log_id: Some(entry.log_id), membership };
                responses.push(MetadataResponse::ok());
            },
        }
        assert(answer_views(responses@) =~= answer_views(had).push(responses@.last()@));
    }
    assert(all.take(all.len() as int) =~= all);
    responses
}

/// In-memory state machine store wrapping [`MetadataStateMachineData`].
#[derive(Clone, Debug)]
pub struct StateMachineStore {
    pub data: MetadataStateMachineData,
    pub snapshot_idx: u64,
    pub current_snapshot: Option<StoredSnapshot>,
}

/// Whether a store took a snapshot: the state stands as it was, and the snapshot that is
/// kept and its description say where the state stood.
pub open spec fn snapshot_built(
    before: StateMachineStore,
    after: StateMachineStore,
    serialized: Vec<u8>,
    meta: SnapshotMeta,
) -> bool {
    &&& after.snapshot_idx == before.snapshot_idx + 1
    &&& after.data == before.data
    &&& meta.last_log_id == before.data.last_applied
    &&& meta.last_membership@ == before.data.last_membership@
    &&& meta.snapshot_id@ == snapshot_name(before.data.last_applied, after.snapshot_idx)
    &&& after.current_snapshot matches Some(stored) && stored.data == serialized
        && stored.meta.says_as(meta)
}

/// Whether a store took over the state of a snapshot.
pub open spec fn snapshot_installed(
    before: StateMachineStore,
    after: StateMachineStore,
    meta: SnapshotMeta,
    state: MetadataModel,
    serialized: Vec<u8>,
) -> bool {
    &&& after.data@ == state
    &&& after.data.last_applied == meta.last_log_id
    &&& after.data.last_membership@ == meta.last_membership@
    &&& after.snapshot_idx == before.snapshot_idx
    &&& after.current_snapshot == Some(StoredSnapshot { meta, data: serialized })
}

/// A snapshot gives back what it was taken of: a store that installs it, reading its bytes
/// as the state that they were written from, holds that state, at the same position and
/// with the same membership, and hands the same snapshot on.
pub proof fn snapshot_gives_the_state_back(
    source: StateMachineStore,
    built: StateMachineStore,
    meta: SnapshotMeta,
    serialized: Vec<u8>,
    target: StateMachineStore,
    restored: StateMachineStore,
)
    requires
        snapshot_built(source, built, serialized, meta),
        snapshot_installed(target, restored, meta, source.data@, serialized),
    ensures
        restored.data@ == source.data@,
        restored.data.last_applied == source.data.last_applied,
        restored.data.last_membership@ == source.data.last_membership@,
        restored.current_snapshot is Some,
        (restored.current_snapshot->0).data == (built.current_snapshot->0).data,
        (restored.current_snapshot->0).meta.says_as((built.current_snapshot->0).meta),
{
}

/// A store that installed a snapshot and then applies the entries that came after it
/// stands where one stands that applied them all.
pub proof fn installing_skips_the_entries_before(
    source: StateMachineStore,
    first: Seq<Entry>,
    rest: Seq<Entry>,
    serialized: Vec<u8>,
    taken: StateMachineStore,
    meta: SnapshotMeta,
    target: StateMachineStore,
    restored: StateMachineStore,
)
    requires
        source.data@ == entries_applied(MetadataModel::initial(), first),
        snapshot_built(source, taken, serialized, meta),
        snapshot_installed(target, restored, meta, source.data@, serialized),
    ensures
        entries_applied(restored.data@, rest) == entries_applied(
            MetadataModel::initial(),
            first + rest,
        ),
{
    recovery_from_snapshot(MetadataModel::initial(), first, rest);
}

impl Default for StateMachineStore {
    fn default() -> (r: Self)
        ensures
            r.data@ == MetadataModel::initial(),
            r.data.last_applied is None,
            r.data.last_membership@ == StoredMembershipModel::none(),
            r.snapshot_idx == 0,
            r.current_snapshot is None,
    {
        StateMachineStore {
            data: MetadataStateMachineData::new(),
            snapshot_idx: 0,
            current_snapshot: None,
        }
    }
}

impl StateMachineStore {
    /// The store of a new node.
    pub fn new() -> (r: Self)
        ensures
            r.data@ == MetadataModel::initial(),
            r.data.last_applied is None,
            r.data.last_membership@ == StoredMembershipModel::none(),
            r.snapshot_idx == 0,
            r.current_snapshot is None,
    {
        Self::default()
    }

    /// The store of a node that starts again, from what was kept of the state, of the
    /// position and of the membership.  Where nothing can be read, the state is that of
    /// a new node; a position or a membership that was kept replaces the state's own.
    pub fn reopen(
        state: Option<MetadataStateMachineData>,
        last_applied: Option<Option<LogId>>,
        membership: Option<StoredMembership>,
        snapshot: Option<StoredSnapshot>,
    ) -> (r: Self)
        ensures
            r.data@ == (match state {
                Some(kept) => kept@,
                None => MetadataModel::initial(),
            }),
            r.data.last_applied == (match (last_applied, state) {
                (Some(position), _) => position,
                (None, Some(kept)) => kept.last_applied,
                (None, None) => None,
            }),
            r.data.last_membership@ == (match (membership, state) {
                (Some(kept), _) => kept@,
                (None, Some(kept)) => kept.last_membership@,
                (None, None) => StoredMembershipModel::none(),
            }),
            r.snapshot_idx == 0,
            r.current_snapshot == snapshot,
    {
        let mut data = match state {
            Some(kept) => kept,
            None => MetadataStateMachineData::new(),
        };
        match last_applied {
            Some(position) => {
                data.last_applied = position;
            },
            None => {},
        }
        match membership {
            Some(kept) => {
                data.last_membership = kept;
            },
            None => {},
        }
        StateMachineStore { data, snapshot_idx: 0, current_snapshot: snapshot }
    }

    /// The state machine data, for queries.
    pub fn data(&self) -> (r: &MetadataStateMachineData)
        ensures
            *r == self.data,
    {
        &self.data
    }

    /// The last applied position and the current membership.
    pub fn applied_state(&self) -> (r: (Option<LogId>, StoredMembership))
        ensures
            r.0 == self.data.last_applied,
            r.1@ == self.data.last_membership@,
    {
        (self.data.last_applied, self.data.last_membership.copy())
    }

    /// Applies committed log entries in order.
    pub fn apply(&mut self, entries: Vec<Entry>) -> (r: Vec<MetadataResponse>)
        requires
            old(self).data@.has_tables(),
            entries_fit(old(self).data@, entries@),
        ensures
            final(self).data@ == entries_applied(old(self).data@, entries@),
            final(self).data@.has_tables(),
            old(self).data@.wf() ==> final(self).data@.wf(),
            final(self).data.last_applied == position_after(old(self).data.last_applied, entries@),
            final(self).data.last_membership@ == membership_after(
                old(self).data.last_membership@,
                entries@,
            ),
            answer_views(r@) == entries_answers(old(self).data@, entries@),
            final(self).snapshot_idx == old(self).snapshot_idx,
            final(self).current_snapshot == old(self).current_snapshot,
    {
        apply_entries(&mut self.data, entries)
    }

    /// Takes a snapshot of the state, whose serialized form the caller hands in.
    pub fn build_snapshot(&mut self, serialized: Vec<u8>) -> (r: SnapshotMeta)
        requires
            old(self).snapshot_idx < u64::MAX,
        ensures
            snapshot_built(*old(self), *final(self), serialized, r),
            final(self).data == old(self).data,
            final(self).snapshot_idx == old(self).snapshot_idx + 1,
            r.last_log_id == old(self).data.last_applied,
            r.last_membership@ == old(self).data.last_membership@,
            final(self).current_snapshot is Some,
            (final(self).current_snapshot->0).data == serialized,
            (final(self).current_snapshot->0).meta.last_log_id == r.last_log_id,
            (final(self).current_snapshot->0).meta.last_membership@ == r.last_membership@,
            (final(self).current_snapshot->0).meta.snapshot_id@ == r.snapshot_id@,
    {
        self.snapshot_idx = self.snapshot_idx + 1;
        let meta = SnapshotMeta {
            last_log_id: self.data.last_applied,
            last_membership: self.data.last_membership.copy(),
            snapshot_id: make_snapshot_name(self.data.last_applied, self.snapshot_idx),
        };
        let r = meta.copy();
        self.current_snapshot = Some(StoredSnapshot { meta, data: serialized });
        r
    }

    /// Replaces the state by the one of a snapshot.  The caller hands in the bytes and
    /// the state that they were read as; position and membership are those of the
    /// snapshot's description.
    ///
    /// # Errors
    ///
    /// Bytes that could not be read change nothing: the reader's error comes back.
    pub fn install_snapshot<E>(
        &mut self,
        meta: SnapshotMeta,
        parsed: Result<MetadataStateMachineData, E>,
        serialized: Vec<u8>,
    ) -> (r: Result<(), E>)
        ensures
            match parsed {
                Ok(state) => r is Ok && snapshot_installed(
                    *old(self),
                    *final(self),
                    meta,
                    state@,
                    serialized,
                ),
                Err(e) => r == Err::<(), E>(e) && *final(self) == *old(self),
            },
            parsed matches Ok(state) ==> {
                &&& final(self).data@ == state@
                &&& final(self).data.last_applied == meta.last_log_id
                &&& final(self).data.last_membership@ == meta.last_membership@
                &&& final(self).snapshot_idx == old(self).snapshot_idx
                &&& final(self).current_snapshot == Some(StoredSnapshot { meta, data: serialized })
            },
    {
        let state = match parsed {
            Ok(state) => state,
            Err(e) => {
                return Err(e);
            },
        };
        self.data = state;
        self.data.last_applied = meta.last_log_id;
        self.data.last_membership = meta.last_membership.copy();
        self.current_snapshot = Some(StoredSnapshot { meta, data: serialized });
        Ok(())
    }

    /// The snapshot that was taken or installed last.
    pub fn get_current_snapshot(&self) -> (r: Option<&StoredSnapshot>)
        ensures
            match r {
                Some(stored) => self.current_snapshot == Some(*stored),
                None => self.current_snapshot is None,
            },
    {
        match &self.current_snapshot {
            Some(stored) => Some(stored),
            None => None,
        }
    }
}

/// Each log entry is answered, in order, by what the state that the entries before it lead
/// to answers; an entry that is no request changes nothing and is answered without a value.
pub proof fn entries_are_answered_in_order(m: MetadataModel, entries: Seq<Entry>, i: int)
    requires
        0 <= i < entries.len(),
    ensures
        entries_answers(m, entries).len() == entries.len(),
        ({
            let before = entries_applied(m, entries.take(i));
            let after = entries_applied(m, entries.take(i + 1));
            let answer = entries_answers(m, entries)[i];
            match entries[i].payload {
                EntryPayload::Normal(req) => (after, answer) == before.apply(req),
                _ => after == before && answer is Done,
            }
        }),
        entries_applied(m, entries.take(0)) == m,
        entries_applied(m, entries.take(entries.len() as int)) == entries_applied(m, entries),
    decreases entries.len(),
{
    let front = entries.drop_last();
    assert(entries.take(entries.len() as int) =~= entries);
    assert(entries.take(0) =~= Seq::<Entry>::empty());
    lemma_answers_len(m, front);
    if i < front.len() {
        entries_are_answered_in_order(m, front, i);
        assert(front.take(i) =~= entries.take(i));
        assert(front.take(i + 1) =~= entries.take(i + 1));
    } else {
        assert(entries.take(i) =~= front);
        assert(entries.take(i + 1) =~= entries);
    }
}

proof fn lemma_answers_len(m: MetadataModel, entries: Seq<Entry>)
    ensures
        entries_answers(m, entries).len() == entries.len(),
    decreases entries.len(),
{
    if entries.len() > 0 {
        lemma_answers_len(m, entries.drop_last());
    }
}

/// After log entries the position is that of the last one, and the membership that of the
/// last one that brought one, under its position; without any they stay.
pub proof fn entries_move_the_position(
    position: Option<LogId>,
    membership: StoredMembershipModel,
    entries: Seq<Entry>,
)
    ensures
        entries.len() == 0 ==> position_after(position, entries) == position,
        entries.len() > 0 ==> position_after(position, entries) == Some(
            entries[entries.len() - 1].log_id,
        ),
        forall|i: int|
            0 <= i < entries.len() && (#[trigger] entries[i]).payload is Membership && (forall|
                j: int,
            |
                i < j < entries.len() ==> !((#[trigger] entries[j]).payload is Membership))
                ==> membership_after(membership, entries).log_id == Some(entries[i].log_id)
                && membership_after(membership, entries).membership
                == entries[i].payload->Membership_0@,
        (forall|i: int| 0 <= i < entries.len() ==> !((#[trigger] entries[i]).payload is Membership))
            ==> membership_after(membership, entries) == membership,
    decreases entries.len(),
{
    if entries.len() > 0 {
        let front = entries.drop_last();
        let last = entries.len() - 1;
        entries_move_the_position(position, membership, front);
        assert(entries.last() == entries[last]);
        assert forall|i: int|
            0 <= i < entries.len() && (#[trigger] entries[i]).payload is Membership && (forall|
                j: int,
            |
                i < j < entries.len() ==> !((
                #[trigger] entries[j]).payload is Membership)) implies membership_after(
            membership,
            entries,
        ).log_id == Some(entries[i].log_id) && membership_after(membership, entries).membership
            == entries[i].payload->Membership_0@ by {
            if i < last {
                assert(!(entries[last].payload is Membership));
                assert(front[i] == entries[i]);
                assert forall|j: int| i < j < front.len() implies !((
                #[trigger] front[j]).payload is Membership) by {
                    assert(front[j] == entries[j]);
                }
            }
        }
        if forall|i: int|
            0 <= i < entries.len() ==> !((#[trigger] entries[i]).payload is Membership) {
            assert forall|i: int| 0 <= i < front.len() implies !((
            #[trigger] front[i]).payload is Membership) by {
                assert(front[i] == entries[i]);
            }
        }
    }
}

/// The model of answers holds each answer, in order.
pub proof fn the_model_shows_the_answers(answers: Seq<MetadataResponse>, i: int)
    requires
        0 <= i < answers.len(),
    ensures
        answer_views(answers).len() == answers.len(),
        answer_views(answers)[i] == answers[i]@,
{
}

/// No two snapshots of one store have the same name: their numbers tell them apart.
pub proof fn snapshot_names_are_distinct(last_applied: Option<LogId>, a: u64, b: u64)
    requires
        snapshot_name(last_applied, a) == snapshot_name(last_applied, b),
    ensures
        a == b,
{
    let head = match last_applied {
        Some(log_id) => log_id.text() + "-"@,
        None => "--"@,
    };
    let x = snapshot_name(last_applied, a);
    let y = snapshot_name(last_applied, b);
    assert(x =~= head + decimal(a as nat));
    assert(y =~= head + decimal(b as nat));
    assert(x.skip(head.len() as int) =~= decimal(a as nat));
    assert(y.skip(head.len() as int) =~= decimal(b as nat));
    crate::text::decimal_is_injective(a as nat, b as nat);
}

} // verus!
