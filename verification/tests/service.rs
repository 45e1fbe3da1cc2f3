use blockyard::ids::{EpochId, SessionId, VolumeId};
use blockyard::raft::request::MetadataRequest;
use blockyard::raft::response::MetadataResponse;
use blockyard::raft::service::{
    check_response, epoch_from_response, lease_from_response, raft_id_from_response, validate_lease,
};
use blockyard::raft::state_machine::MetadataStateMachineData;
use blockyard::types::{LeaseRequest, LeaseResponse, ProtectionPolicy};


#[test]
fn test_check_response_ok() {
    assert!(check_response(MetadataResponse::Done).is_ok());
}

#[test]
fn test_check_response_epoch() {
    assert!(check_response(MetadataResponse::Epoch(EpochId::new(1))).is_ok());
}

#[test]
fn test_check_response_error() {
    let result = check_response(MetadataResponse::Error("fail".into()));
    assert!(result.is_err());
    assert!(result.unwrap_err().to_text().contains("fail"));
}

#[test]
fn test_check_response_node_registered() {
    assert!(check_response(MetadataResponse::NodeRegistered(42)).is_ok());
}
#[test]
fn answers_of_the_wrong_kind_are_errors() {
    let epoch = MetadataResponse::Epoch(EpochId::new(4));
    assert_eq!(epoch_from_response(epoch, "advance_epoch").unwrap(), EpochId::new(4));
    let wrong = epoch_from_response(MetadataResponse::Done, "advance_epoch").unwrap_err();
    assert_eq!(wrong.to_text(), "raft error: unexpected response from advance_epoch");
    let refused = MetadataResponse::Error("stale".to_string());
    assert_eq!(
        lease_from_response(refused.clone(), "renew_lease").unwrap_err().to_text(),
        "raft error: stale"
    );
    assert_eq!(
        raft_id_from_response(refused, "register_node").unwrap_err().to_text(),
        "raft error: stale"
    );
    assert_eq!(
        raft_id_from_response(MetadataResponse::NodeRegistered(3), "register_node").unwrap(),
        3
    );
    let lease = MetadataResponse::Lease(LeaseResponse::Released);
    assert_eq!(
        lease_from_response(lease, "release_lease").unwrap(),
        LeaseResponse::Released
    );
}

#[test]
fn a_lease_that_does_not_hold_is_an_authorization_error() {
    let mut sm = MetadataStateMachineData::new();
    let volume_id = VolumeId::new(1);
    let session_id = SessionId::new(2);
    sm.apply_request(&MetadataRequest::CreateVolume {
        volume_id,
        size_bytes: 1,
        protection: ProtectionPolicy::Replicated { replicas: 1 },
    });
    let err = validate_lease(&sm, &volume_id, session_id, 1, 0).unwrap_err();
    assert_eq!(
        err.to_text(),
        format!("auth error: no lease for volume {}", volume_id.to_text())
    );
    sm.apply_request(&MetadataRequest::Lease(LeaseRequest::Acquire {
        volume_id,
        session_id,
        now_ms: 0,
        ttl_ms: 10,
    }));
    assert!(validate_lease(&sm, &volume_id, session_id, 1, 5).is_ok());
    assert!(validate_lease(&sm, &volume_id, session_id, 1, 50).is_err());
    assert!(validate_lease(&sm, &volume_id, SessionId::new(3), 1, 5).is_err());
    assert!(validate_lease(&sm, &volume_id, session_id, 2, 5).is_err());
}
