//! What a caller of the metadata service gets for each answer of the state
//! machine.

use crate::ids::{EpochId, SessionId, VolumeId};
use crate::raft::response::MetadataResponse;
use crate::raft::state_machine::MetadataStateMachineData;
use crate::text::join2;
use crate::types::{Error, LeaseResponse, LeaseVersion};
use vstd::prelude::*;

verus! {

/// The failure of an operation that got an answer of the wrong kind.
fn unexpected(operation: &str) -> (e: Error)
    ensures
        e is Raft,
        e->Raft_0@ == "unexpected response from "@ + operation@,
{
    Error::Raft(join2("unexpected response from ", operation))
}

/// What an operation without a result returns: a refusal is an error, every other
/// answer is success.
pub fn check_response(resp: MetadataResponse) -> (r: Result<(), Error>)
    ensures
        match resp {
            MetadataResponse::Error(msg) => r == Err::<(), Error>(Error::Raft(msg)),
            _ => r is Ok,
        },
{
    match resp {
        MetadataResponse::Error(msg) => Err(Error::Raft(msg)),
        _ => Ok(()),
    }
}

/// What an operation that asks for an epoch returns.
pub fn epoch_from_response(resp: MetadataResponse, operation: &str) -> (r: Result<EpochId, Error>)
    ensures
        match resp {
            MetadataResponse::Epoch(e) => r == Ok::<EpochId, Error>(e),
            MetadataResponse::Error(msg) => r == Err::<EpochId, Error>(Error::Raft(msg)),
            _ => r is Err && r->Err_0 is Raft && r->Err_0->Raft_0@ == "unexpected response from "@
                + operation@,
        },
{
    match resp {
        MetadataResponse::Epoch(e) => Ok(e),
        MetadataResponse::Error(msg) => Err(Error::Raft(msg)),
        _ => Err(unexpected(operation)),
    }
}

/// What an operation on a lease returns.
pub fn lease_from_response(resp: MetadataResponse, operation: &str) -> (r: Result<
    LeaseResponse,
    Error,
>)
    ensures
        match resp {
            MetadataResponse::Lease(lr) => r == Ok::<LeaseResponse, Error>(lr),
            MetadataResponse::Error(msg) => r == Err::<LeaseResponse, Error>(Error::Raft(msg)),
            _ => r is Err && r->Err_0 is Raft && r->Err_0->Raft_0@ == "unexpected response from "@
                + operation@,
        },
{
    match resp {
        MetadataResponse::Lease(lr) => Ok(lr),
        MetadataResponse::Error(msg) => Err(Error::Raft(msg)),
        _ => Err(unexpected(operation)),
    }
}

/// What the registration of a node returns.
pub fn raft_id_from_response(resp: MetadataResponse, operation: &str) -> (r: Result<u64, Error>)
    ensures
        match resp {
            MetadataResponse::NodeRegistered(id) => r == Ok::<u64, Error>(id),
            MetadataResponse::Error(msg) => r == Err::<u64, Error>(Error::Raft(msg)),
            _ => r is Err && r->Err_0 is Raft && r->Err_0->Raft_0@ == "unexpected response from "@
                + operation@,
        },
{
    match resp {
        MetadataResponse::NodeRegistered(id) => Ok(id),
        MetadataResponse::Error(msg) => Err(Error::Raft(msg)),
        _ => Err(unexpected(operation)),
    }
}

/// Validate a write lease for fencing: a lease that does not hold is an authorization
/// error.
pub fn validate_lease(
    data: &MetadataStateMachineData,
    volume_id: &VolumeId,
    session_id: SessionId,
    lease_version: LeaseVersion,
    now_ms: u64,
) -> (r: Result<(), Error>)
    ensures
        match r {
            Ok(_) => data@.lease_fault(*volume_id, session_id, lease_version, now_ms) is None,
            Err(e) => e is Auth && data@.lease_fault(
                *volume_id,
                session_id,
                lease_version,
                now_ms,
            ) == Some(e->Auth_0@),
        },
{
    match data.validate_lease(volume_id, session_id, lease_version, now_ms) {
        Ok(_) => Ok(()),
        Err(msg) => Err(Error::Auth(msg)),
    }
}

} // verus!
