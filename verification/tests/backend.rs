use blockyard::ids::VolumeId;
use blockyard::storage::backend::MemoryBackend;
use blockyard::types::ZfsHealthState;


fn gb(n: u64) -> u64 {
    n * 1024 * 1024 * 1024
}

#[test]
fn test_memory_backend_create_zvol() {
    let mut backend = MemoryBackend::new("test".into(), gb(100));
    let vol_id = VolumeId::generate();
    backend.create_zvol(&vol_id, gb(10)).unwrap();

    let zvols = backend.list_zvols().unwrap();
    assert_eq!(zvols.len(), 1);
    assert_eq!(zvols[0].volume_id, vol_id);
}

#[test]
fn test_memory_backend_create_duplicate() {
    let mut backend = MemoryBackend::new("test".into(), gb(100));
    let vol_id = VolumeId::generate();
    backend.create_zvol(&vol_id, gb(10)).unwrap();
    let result = backend.create_zvol(&vol_id, gb(10));
    assert!(result.is_err());
}

#[test]
fn test_memory_backend_pool_full() {
    let mut backend = MemoryBackend::new("test".into(), gb(10));
    let vol_id = VolumeId::generate();
    let result = backend.create_zvol(&vol_id, gb(20));
    assert!(result.is_err());
}

#[test]
fn test_memory_backend_destroy_zvol() {
    let mut backend = MemoryBackend::new("test".into(), gb(100));
    let vol_id = VolumeId::generate();
    backend.create_zvol(&vol_id, gb(10)).unwrap();
    backend.destroy_zvol(&vol_id).unwrap();
    assert!(backend.list_zvols().unwrap().is_empty());
}

#[test]
fn test_memory_backend_destroy_not_found() {
    let mut backend = MemoryBackend::new("test".into(), gb(100));
    let result = backend.destroy_zvol(&VolumeId::generate());
    assert!(result.is_err());
}

#[test]
fn test_memory_backend_resize_zvol() {
    let mut backend = MemoryBackend::new("test".into(), gb(100));
    let vol_id = VolumeId::generate();
    backend.create_zvol(&vol_id, gb(10)).unwrap();
    backend.resize_zvol(&vol_id, gb(20)).unwrap();

    let zvols = backend.list_zvols().unwrap();
    assert_eq!(zvols[0].size_bytes, gb(20));
}

#[test]
fn test_memory_backend_resize_not_found() {
    let mut backend = MemoryBackend::new("test".into(), gb(100));
    let result = backend.resize_zvol(&VolumeId::generate(), gb(10));
    assert!(result.is_err());
}

#[test]
fn test_memory_backend_snapshot() {
    let mut backend = MemoryBackend::new("test".into(), gb(100));
    let vol_id = VolumeId::generate();
    backend.create_zvol(&vol_id, gb(10)).unwrap();
    backend.snapshot_zvol(&vol_id, "snap-1").unwrap();
}

#[test]
fn test_memory_backend_snapshot_not_found() {
    let mut backend = MemoryBackend::new("test".into(), gb(100));
    let result = backend.snapshot_zvol(&VolumeId::generate(), "snap-1");
    assert!(result.is_err());
}

#[test]
fn test_memory_backend_pool_capacity() {
    let mut backend = MemoryBackend::new("test".into(), gb(100));
    let vol_id = VolumeId::generate();
    backend.create_zvol(&vol_id, gb(30)).unwrap();

    let (total, used) = backend.pool_capacity().unwrap();
    assert_eq!(total, gb(100));
    assert_eq!(used, gb(30));
}

#[test]
fn test_memory_backend_pool_health() {
    let backend = MemoryBackend::new("test".into(), gb(100));
    let health = backend.pool_health().unwrap();
    assert_eq!(health.pool_name, "test");
    assert_eq!(
        health.state,
        ZfsHealthState::Online
    );
    assert_eq!(health.capacity_bytes, gb(100));
}

#[test]
fn test_memory_backend_pool_name() {
    let backend = MemoryBackend::new("mypool".into(), gb(100));
    assert_eq!(backend.pool_name(), "mypool");
}
#[test]
fn every_refusal_says_why() {
    let mut backend = MemoryBackend::new("p".into(), 10);
    let id = VolumeId::new(1);
    assert_eq!(
        backend.destroy_zvol(&id).unwrap_err().to_text(),
        format!("volume not found: {}", id.to_text())
    );
    backend.create_zvol(&id, 4).unwrap();
    assert!(backend.create_zvol(&id, 1).is_err());
    assert!(backend.create_zvol(&VolumeId::new(2), 7).is_err());
    backend.create_zvol(&VolumeId::new(2), 6).unwrap();
    assert_eq!(backend.pool_capacity().unwrap(), (10, 10));
    assert_eq!(backend.pool_health().unwrap().free_bytes, 0);
    let zvols = backend.list_zvols().unwrap();
    assert_eq!(zvols[0].name, format!("p/vol-{}", id.to_text()));
    assert_eq!(zvols[0].used_bytes, 2);
}
