use blockyard::storage::error::StorageError;


#[test]
fn test_disk_not_found_display() {
    let err = StorageError::DiskNotFound("disk-1".into());
    assert_eq!(err.to_text(), "disk not found: disk-1");
}

#[test]
fn test_duplicate_disk_display() {
    let err = StorageError::DuplicateDisk("disk-1".into());
    assert_eq!(err.to_text(), "duplicate disk: disk-1");
}

#[test]
fn test_xfs_validation_display() {
    let err = StorageError::XfsValidation("not xfs".into());
    assert_eq!(err.to_text(), "XFS validation failed: not xfs");
}

#[test]
fn test_disk_identity_display() {
    let err = StorageError::DiskIdentity("corrupt".into());
    assert_eq!(err.to_text(), "disk identity error: corrupt");
}

#[test]
fn test_invalid_transition_display() {
    let err = StorageError::InvalidTransition("bad".into());
    assert_eq!(err.to_text(), "invalid state transition: bad");
}

#[test]
fn test_allocation_denied_display() {
    let err = StorageError::AllocationDenied("degraded".into());
    assert_eq!(err.to_text(), "allocation denied: degraded");
}

#[test]
fn test_extent_not_found_display() {
    let err = StorageError::ExtentNotFound("e-1".into());
    assert_eq!(err.to_text(), "extent not found: e-1");
}

#[test]
fn test_extent_exists_display() {
    let err = StorageError::ExtentExists("e-1".into());
    assert_eq!(err.to_text(), "extent already exists: e-1");
}

#[test]
fn test_immutability_violation_display() {
    let err = StorageError::ImmutabilityViolation("overwrite".into());
    assert_eq!(err.to_text(), "immutability violation: overwrite");
}

#[test]
fn test_checksum_mismatch_display() {
    let err = StorageError::ChecksumMismatch("bad hash".into());
    assert_eq!(err.to_text(), "checksum mismatch: bad hash");
}

#[test]
fn test_staging_error_display() {
    let err = StorageError::StagingError("temp failed".into());
    assert_eq!(err.to_text(), "staging error: temp failed");
}

#[test]
fn test_io_error_from() {
    let err = StorageError::Io("gone".into());
    assert!(err.to_text().contains("gone"));
}

#[test]
fn test_stale_epoch_display() {
    let err = StorageError::StaleEpoch("epoch 5 < 7".into());
    assert_eq!(err.to_text(), "stale epoch: epoch 5 < 7");
}

#[test]
fn test_duplicate_operation_display() {
    let err = StorageError::DuplicateOperation("op-1".into());
    assert_eq!(err.to_text(), "duplicate operation: op-1");
}

#[test]
fn test_into_common_error() {
    let err = StorageError::DiskNotFound("x".into());
    let common = err.into_error();
    assert!(common.to_text().contains("disk not found"));
}

#[test]
fn test_error_is_send_sync() {
    fn assert_send_sync<T: Send + Sync>() {}
    assert_send_sync::<StorageError>();
}

#[test]
fn test_error_debug() {
    let err = StorageError::AllocationDenied("test".into());
    let debug = format!("{:?}", err);
    assert!(debug.contains("AllocationDenied"));
}
#[test]
fn every_error_has_its_text() {
    let text = "x".to_string();
    assert_eq!(StorageError::Io(text.clone()).to_text(), "io error: x");
    assert_eq!(
        StorageError::Io(text).into_error().to_text(),
        "storage error: io error: x"
    );
}
