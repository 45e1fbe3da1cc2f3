//! What the services of a node answer to its peers.  The transport decodes the
//! requests and hands in what came out of the decoding.

use crate::raft::app_state::{AppModel, AppState};
use crate::raft::multiraft::MultiRaft;
use crate::raft::types::{RaftRequest, RaftResponse};
use crate::text::{decimal, decimal_text, join2, join3};
use crate::types::RaftGroupId;
use vstd::prelude::*;

verus! {

/// Why a call is refused.
#[derive(Clone, Debug, PartialEq, Eq)]
pub enum Status {
    NotFound(String),
    InvalidArgument(String),
}

impl Status {
    /// Whether the status says that a group is not found.
    pub open spec fn says_no_group(self, group_id: u64) -> bool {
        self is NotFound && self->NotFound_0@ == "raft group "@ + decimal(group_id as nat)
            + " not found"@
    }

    /// Whether the status says that an argument is invalid, in these words.
    pub open spec fn says_invalid(self, text: Seq<char>) -> bool {
        self is InvalidArgument && self->InvalidArgument_0@ == text
    }
}

/// The answer to log entries from a leader.
#[derive(Clone, Copy, Debug, PartialEq, Eq, Structural)]
pub struct AppendEntriesReply {
    pub term: u64,
    pub success: bool,
    pub last_log_index: u64,
}

/// The answer to a request for a vote.
#[derive(Clone, Copy, Debug, PartialEq, Eq, Structural)]
pub struct VoteReply {
    pub term: u64,
    pub vote_granted: bool,
}

/// The answer to a forwarded proposal.
#[derive(Clone, Debug, PartialEq, Eq)]
pub struct ForwardProposalReply {
    pub success: bool,
    pub error: String,
    pub data: Vec<u8>,
}

/// How many entries precede the first one that could not be decoded.
pub open spec fn decoded_count(entries: Seq<Result<RaftRequest, String>>) -> nat
    decreases entries.len(),
{
    if entries.len() == 0 || entries[0] is Err {
        0
    } else {
        1 + decoded_count(entries.skip(1))
    }
}

/// The state of a group after the first decoded entries, the first of which gets
/// the given index.
pub open spec fn entries_proposed(
    state: AppModel,
    index: u64,
    entries: Seq<Result<RaftRequest, String>>,
    count: nat,
) -> AppModel
    decreases count,
{
    if count == 0 {
        state
    } else {
        entries_proposed(state, index, entries, (count - 1) as nat).apply_at(
            (index + count - 1) as u64,
            entries[count - 1]->Ok_0,
        ).0
    }
}

proof fn lemma_decoded_count(entries: Seq<Result<RaftRequest, String>>)
    ensures
        decoded_count(entries) <= entries.len(),
        forall|i: int| 0 <= i < decoded_count(entries) ==> (#[trigger] entries[i]) is Ok,
        decoded_count(entries) < entries.len() ==> entries[decoded_count(entries) as int] is Err,
    decreases entries.len(),
{
    if entries.len() > 0 && entries[0] is Ok {
        let rest = entries.skip(1);
        lemma_decoded_count(rest);
        assert forall|i: int| 0 <= i < decoded_count(entries) implies (#[trigger] entries[i]) is Ok by {
            if i > 0 {
                assert(rest[i - 1] == entries[i]);
            }
        }
        if decoded_count(entries) < entries.len() {
            assert(rest[decoded_count(rest) as int] == entries[decoded_count(entries) as int]);
        }
    }
}

fn no_group(group_id: u64) -> (s: Status)
    ensures
        s.says_no_group(group_id),
{
    Status::NotFound(join3("raft group ", decimal_text(group_id).as_str(), " not found"))
}

/// Applies the log entries that a leader sent to a group, in order, up to the first
/// one that could not be decoded; that one refuses the call.
pub fn append_entries(
    multiraft: &mut MultiRaft,
    group_id: RaftGroupId,
    term: u64,
    prev_log_index: u64,
    entries: &Vec<Result<RaftRequest, String>>,
) -> (r: Result<AppendEntriesReply, Status>)
    requires
        old(multiraft).groups@.contains_key(group_id) ==> {
            let n = decoded_count(entries@);
            &&& old(multiraft).groups@[group_id].next_index + n <= u64::MAX
            &&& n == entries@.len() ==> prev_log_index + n <= u64::MAX
        },
    ensures
        final(multiraft).node_id == old(multiraft).node_id,
        final(multiraft).groups@.dom() == old(multiraft).groups@.dom(),
        final(multiraft).groups@.remove(group_id) == old(multiraft).groups@.remove(group_id),
        !old(multiraft).groups@.contains_key(group_id) ==> r is Err && r->Err_0.says_no_group(
            group_id,
        ),
        old(multiraft).groups@.contains_key(group_id) ==> {
            let n = decoded_count(entries@);
            let before = old(multiraft).groups@[group_id];
            let after = final(multiraft).groups@[group_id];
            &&& after.state_machine.state@ == entries_proposed(
                before.state_machine.state@,
                before.next_index,
                entries@,
                n,
            )
            &&& after.next_index == before.next_index + n
            &&& n == entries@.len() ==> r == Ok::<AppendEntriesReply, Status>(
                AppendEntriesReply {
                    term,
                    success: true,
                    last_log_index: (prev_log_index + n) as u64,
                },
            )
            &&& n < entries@.len() ==> r is Err && r->Err_0.says_invalid(
                "failed to decode log entry: "@ + entries@[n as int]->Err_0@,
            )
        },
{
    if !multiraft.has_group(group_id) {
        return Err(no_group(group_id));
    }
    proof {
        lemma_decoded_count(entries@);
    }
    let ghost before = multiraft.groups@[group_id];
    let ghost others = multiraft.groups@.remove(group_id);
    let ghost dom = multiraft.groups@.dom();
    let mut i: usize = 0;
    while i < entries.len()
        invariant
            i <= entries@.len(),
            i <= decoded_count(entries@),
            decoded_count(entries@) <= entries@.len(),
            forall|j: int| 0 <= j < decoded_count(entries@) ==> (#[trigger] entries@[j]) is Ok,
            decoded_count(entries@) < entries@.len() ==> entries@[decoded_count(
                entries@,
            ) as int] is Err,
            multiraft.node_id == old(multiraft).node_id,
            dom == old(multiraft).groups@.dom(),
            others == old(multiraft).groups@.remove(group_id),
            before == old(multiraft).groups@[group_id],
            old(multiraft).groups@.contains_key(group_id),
            multiraft.groups@.dom() == dom,
            multiraft.groups@.contains_key(group_id),
            multiraft.groups@.remove(group_id) == others,
            before.next_index + decoded_count(entries@) <= u64::MAX,
            multiraft.groups@[group_id].next_index == before.next_index + i,
            multiraft.groups@[group_id].state_machine.state@ == entries_proposed(
                before.state_machine.state@,
                before.next_index,
                entries@,
                i as nat,
            ),
        decreases entries@.len() - i,
    {
        match &entries[i] {
            Ok(req) => {
                assert(i < decoded_count(entries@));
                let outcome = multiraft.propose(group_id, req);
                assert(outcome is Ok);
            },
            Err(e) => {
                assert(i == decoded_count(entries@));
                return Err(
                    Status::InvalidArgument(join2("failed to decode log entry: ", e.as_str())),
                );
            },
        }
        i = i + 1;
    }
    Ok(
        AppendEntriesReply {
            term,
            success: true,
            last_log_index: prev_log_index + entries.len() as u64,
        },
    )
}

/// Answers a request for a vote: granted where the group exists.
pub fn request_vote(multiraft: &MultiRaft, group_id: RaftGroupId, term: u64) -> (r: Result<
    VoteReply,
    Status,
>)
    ensures
        multiraft.groups@.contains_key(group_id) ==> r == Ok::<VoteReply, Status>(
            VoteReply { term, vote_granted: true },
        ),
        !multiraft.groups@.contains_key(group_id) ==> r is Err && r->Err_0.says_no_group(group_id),
{
    if !multiraft.has_group(group_id) {
        return Err(no_group(group_id));
    }
    Ok(VoteReply { term, vote_granted: true })
}

/// Answers a snapshot: accepted, with the sender's term, where the group exists and
/// the snapshot could be decoded.
pub fn install_snapshot(
    multiraft: &MultiRaft,
    group_id: RaftGroupId,
    term: u64,
    decoded: &Result<AppState, String>,
) -> (r: Result<u64, Status>)
    ensures
        !multiraft.groups@.contains_key(group_id) ==> r is Err && r->Err_0.says_no_group(group_id),
        multiraft.groups@.contains_key(group_id) ==> match *decoded {
            Ok(_) => r == Ok::<u64, Status>(term),
            Err(e) => r is Err && r->Err_0.says_invalid("invalid snapshot data: "@ + e@),
        },
{
    if !multiraft.has_group(group_id) {
        return Err(no_group(group_id));
    }
    match decoded {
        Ok(_) => Ok(term),
        Err(e) => Err(Status::InvalidArgument(join2("invalid snapshot data: ", e.as_str()))),
    }
}

/// The groups of a heartbeat that the node does not have, in order.
pub fn missing_groups(multiraft: &MultiRaft, groups: &Vec<RaftGroupId>) -> (r: Vec<RaftGroupId>)
    ensures
        r@ == groups@.filter(|g: u64| !multiraft.groups@.contains_key(g)),
{
    let ghost absent = |g: u64| !multiraft.groups@.contains_key(g);
    let mut r: Vec<RaftGroupId> = Vec::new();
    let mut i: usize = 0;
    proof {
        reveal(Seq::filter);
        assert(groups@.take(0).filter(absent) =~= Seq::empty());
    }
    while i < groups.len()
        invariant
            i <= groups@.len(),
            absent == (|g: u64| !multiraft.groups@.contains_key(g)),
            r@ == groups@.take(i as int).filter(absent),
        decreases groups@.len() - i,
    {
        if !multiraft.has_group(groups[i]) {
            r.push(groups[i]);
        }
        i = i + 1;
        proof {
            reveal(Seq::filter);
            assert(groups@.take(i as int).drop_last() =~= groups@.take(i - 1));
        }
    }
    assert(groups@.take(groups@.len() as int) =~= groups@);
    r
}

/// Hands a forwarded proposal to a group.  What the group answers, and that there is
/// no such group, is told in the reply; only an undecodable proposal refuses the call.
pub fn forward_proposal(
    multiraft: &mut MultiRaft,
    group_id: RaftGroupId,
    decoded: &Result<RaftRequest, String>,
) -> (r: Result<ForwardProposalReply, Status>)
    requires
        *decoded is Ok && old(multiraft).groups@.contains_key(group_id) ==> old(
            multiraft,
        ).groups@[group_id].next_index < u64::MAX,
    ensures
        final(multiraft).node_id == old(multiraft).node_id,
        final(multiraft).groups@.dom() == old(multiraft).groups@.dom(),
        final(multiraft).groups@.remove(group_id) == old(multiraft).groups@.remove(group_id),
        match *decoded {
            Err(e) => {
                &&& r is Err
                &&& r->Err_0.says_invalid("failed to decode proposal payload: "@ + e@)
                &&& final(multiraft).groups@ == old(multiraft).groups@
            },
            Ok(req) => r matches Ok(reply) && if old(multiraft).groups@.contains_key(group_id) {
                let before = old(multiraft).groups@[group_id];
                let (state, answer) = before.state_machine.state@.apply_at(before.next_index, req);
                &&& final(multiraft).groups@[group_id].state_machine.state@ == state
                &&& final(multiraft).groups@[group_id].next_index == before.next_index + 1
                &&& reply.success == !(answer is Error)
                &&& reply.error@ == (if answer is Error {
                    answer->Error_0
                } else {
                    Seq::empty()
                })
                &&& reply.data@ == (if answer is Data {
                    answer->Data_0
                } else {
                    Seq::empty()
                })
            } else {
                &&& final(multiraft).groups@ == old(multiraft).groups@
                &&& !reply.success
                &&& reply.error@ == "raft error: "@ + ("group not found: "@ + decimal(
                    group_id as nat,
                ))
                &&& reply.data@ == Seq::<u8>::empty()
            },
        },
{
    match decoded {
        Err(e) => Err(
            Status::InvalidArgument(join2("failed to decode proposal payload: ", e.as_str())),
        ),
        Ok(req) => match multiraft.propose(group_id, req) {
            Ok(RaftResponse::Done) => Ok(
                ForwardProposalReply { success: true, error: String::new(), data: Vec::new() },
            ),
            Ok(RaftResponse::Error(e)) => Ok(
                ForwardProposalReply { success: false, error: e, data: Vec::new() },
            ),
            Ok(RaftResponse::Data(d)) => Ok(
                ForwardProposalReply { success: true, error: String::new(), data: d },
            ),
            Err(e) => Ok(
                ForwardProposalReply { success: false, error: e.to_text(), data: Vec::new() },
            ),
        },
    }
}

/// The state of a group, or what to say where there is no such group.
pub fn get_state(multiraft: &MultiRaft, group_id: RaftGroupId) -> (r: Result<&AppState, String>)
    ensures
        match r {
            Ok(state) => multiraft.groups@.contains_key(group_id) && *state
                == multiraft.groups@[group_id].state_machine.state,
            Err(e) => !multiraft.groups@.contains_key(group_id) && e@ == "group "@ + decimal(
                group_id as nat,
            ) + " not found"@,
        },
{
    match multiraft.get_state(group_id) {
        Some(state) => Ok(state),
        None => Err(join3("group ", decimal_text(group_id).as_str(), " not found")),
    }
}

/// The entries that are applied are those before the first one that cannot be decoded.
pub proof fn entries_are_taken_up_to_the_first_bad_one(entries: Seq<Result<RaftRequest, String>>)
    ensures
        decoded_count(entries) <= entries.len(),
        forall|i: int| 0 <= i < decoded_count(entries) ==> (#[trigger] entries[i]) is Ok,
        decoded_count(entries) < entries.len() ==> entries[decoded_count(entries) as int] is Err,
    decreases entries.len(),
{
    if entries.len() > 0 && entries[0] is Ok {
        let rest = entries.skip(1);
        entries_are_taken_up_to_the_first_bad_one(rest);
        assert forall|i: int| 0 <= i < decoded_count(entries) implies (#[trigger] entries[i]) is Ok by {
            if i > 0 {
                assert(rest[i - 1] == entries[i]);
            }
        }
    }
}

/// Each entry that is applied gets the index after that of the one before it, and acts on
/// the state that those before it left.
pub proof fn entries_are_applied_one_by_one(
    state: AppModel,
    index: u64,
    entries: Seq<Result<RaftRequest, String>>,
    count: nat,
)
    requires
        count < entries.len(),
        entries[count as int] is Ok,
        index + count <= u64::MAX,
    ensures
        entries_proposed(state, index, entries, 0) == state,
        entries_proposed(state, index, entries, count + 1) == entries_proposed(
            state,
            index,
            entries,
            count,
        ).apply_at((index + count) as u64, entries[count as int]->Ok_0).0,
        entries_proposed(state, index, entries, count + 1).applied_index == index + count,
{
}

} // verus!
