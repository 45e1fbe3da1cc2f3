use blockyard::raft::volume_group::VolumeGroup;


#[test]
fn test_volume_group() {
    let vg = VolumeGroup::new(42, "web-db".into());
    assert_eq!(vg.group_id(), 42);
    assert_eq!(vg.volume_name(), "web-db");
}
