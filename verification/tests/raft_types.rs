use blockyard::raft::types::RaftRequest;


#[test]
fn test_raft_request_display() {
    let cases = vec![
        (
            RaftRequest::VolumeCreate {
                name: "v".into(),
                size_bytes: 1,
                replicas: 1,
            },
            "VolumeCreate(v)",
        ),
        (
            RaftRequest::VolumeDelete { name: "v".into() },
            "VolumeDelete(v)",
        ),
        (
            RaftRequest::VolumeResize {
                name: "v".into(),
                new_size: 2,
            },
            "VolumeResize(v, 2)",
        ),
        (
            RaftRequest::VolumeExpand {
                name: "v".into(),
                new_size: 4,
            },
            "VolumeExpand(v, 4)",
        ),
        (
            RaftRequest::VolumeSetReplicas {
                name: "v".into(),
                replicas: 5,
            },
            "VolumeSetReplicas(v, 5)",
        ),
        (
            RaftRequest::VolumeSetConsistency {
                name: "v".into(),
                consistency: "all".into(),
            },
            "VolumeSetConsistency(v, all)",
        ),
        (
            RaftRequest::VolumeSetReadPolicy {
                name: "v".into(),
                read_policy: "leader".into(),
            },
            "VolumeSetReadPolicy(v, leader)",
        ),
        (
            RaftRequest::PlacementUpdate {
                volume_name: "v".into(),
                nodes: vec![1],
            },
            "PlacementUpdate(v)",
        ),
        (
            RaftRequest::NodeRegister {
                node_id: 1,
                addr: "a".into(),
            },
            "NodeRegister(1)",
        ),
        (
            RaftRequest::NodeDeregister { node_id: 1 },
            "NodeDeregister(1)",
        ),
        (RaftRequest::NodeDrain { node_id: 1 }, "NodeDrain(1)"),
        (
            RaftRequest::NodeDrainComplete { node_id: 1 },
            "NodeDrainComplete(1)",
        ),
        (
            RaftRequest::Write {
                volume_id: 1,
                offset: 0,
                data: vec![0],
            },
            "Write(vol=1, off=0)",
        ),
        (
            RaftRequest::RebalanceStart {
                volume_name: "v".into(),
                source: 1,
                target: 2,
            },
            "RebalanceStart(v, 1->2)",
        ),
        (
            RaftRequest::RebalanceComplete {
                volume_name: "v".into(),
            },
            "RebalanceComplete(v)",
        ),
        (
            RaftRequest::RebalanceFail {
                volume_name: "v".into(),
                reason: "err".into(),
            },
            "RebalanceFail(v, err)",
        ),
    ];
    for (req, expected) in cases {
        assert_eq!(req.to_text(), expected);
    }
}
