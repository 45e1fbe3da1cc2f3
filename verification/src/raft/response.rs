//! Answers of the metadata state machine.

use crate::ids::EpochId;
use crate::types::{LeaseResponse, LeaseVersion};
use vstd::prelude::*;

verus! {

/// The answer to a [`MetadataRequest`](crate::raft::request::MetadataRequest).
#[derive(Clone, Debug, PartialEq, Eq)]
pub enum MetadataResponse {
    /// No meaningful return value.
    Done,
    /// The current placement epoch after the operation.
    Epoch(EpochId),
    /// The request was refused.
    Error(String),
    /// The answer to a lease request.
    Lease(LeaseResponse),
    /// The consensus number of a registered node.
    NodeRegistered(u64),
    /// A disk was registered (or updated) in the cluster metadata.
    DiskRegistered,
}

/// What a lease answer says.
pub enum LeaseAnswer {
    Granted { lease_version: LeaseVersion, expires_at_ms: u64 },
    Renewed { lease_version: LeaseVersion, expires_at_ms: u64 },
    Released,
    Denied { reason: Seq<char> },
}

/// What an answer of the state machine says.
pub enum Answer {
    Done,
    Epoch(EpochId),
    Error(Seq<char>),
    Lease(LeaseAnswer),
    NodeRegistered(u64),
    DiskRegistered,
}

impl View for LeaseResponse {
    type V = LeaseAnswer;

    open spec fn view(&self) -> LeaseAnswer {
        match *self {
            LeaseResponse::Granted { lease_version, expires_at_ms } => LeaseAnswer::Granted {
                lease_version,
                expires_at_ms,
            },
            LeaseResponse::Renewed { lease_version, expires_at_ms } => LeaseAnswer::Renewed {
                lease_version,
                expires_at_ms,
            },
            LeaseResponse::Released => LeaseAnswer::Released,
            LeaseResponse::Denied { reason } => LeaseAnswer::Denied { reason: reason@ },
        }
    }
}

impl View for MetadataResponse {
    type V = Answer;

    open spec fn view(&self) -> Answer {
        match *self {
            MetadataResponse::Done => Answer::Done,
            MetadataResponse::Epoch(e) => Answer::Epoch(e),
            MetadataResponse::Error(msg) => Answer::Error(msg@),
            MetadataResponse::Lease(r) => Answer::Lease(r@),
            MetadataResponse::NodeRegistered(id) => Answer::NodeRegistered(id),
            MetadataResponse::DiskRegistered => Answer::DiskRegistered,
        }
    }
}

impl MetadataResponse {
    /// The answer without a value.
    pub fn ok() -> (r: Self)
        ensures
            r@ == Answer::Done,
    {
        MetadataResponse::Done
    }

    /// The answer that gives the epoch.
    pub fn epoch(epoch: EpochId) -> (r: Self)
        ensures
            r@ == Answer::Epoch(epoch),
    {
        MetadataResponse::Epoch(epoch)
    }

    /// The refusal with the given reason.
    pub fn error(msg: String) -> (r: Self)
        ensures
            r@ == Answer::Error(msg@),
    {
        MetadataResponse::Error(msg)
    }

    /// Whether the request was refused.
    pub fn is_error(&self) -> (r: bool)
        ensures
            r == (self@ is Error),
    {
        matches!(self, MetadataResponse::Error(_))
    }
}

} // verus!
