use blockyard::storage::rebalance::{
    cluster_load, ClusterState, MoveState, RebalanceConfig, RebalanceEngine, RebalanceMove,
    VolumeInfo,
};
use blockyard::types::{NodeInfo, NodeState, RaftNodeId, ZfsHealthState};

struct ImbalancedNode {
    node_id: RaftNodeId,
    deviation: f64,
}

/// The nodes whose usage ratio deviates from the mean by more than the threshold.
fn detect_imbalance(nodes: &Vec<NodeInfo>, threshold: f64) -> Vec<ImbalancedNode> {
    let load = cluster_load(nodes);
    let mean = load.total_used as f64 / load.total_capacity as f64;
    load.nodes
        .iter()
        .map(|i| ImbalancedNode {
            node_id: nodes[*i].id,
            deviation: nodes[*i].used_bytes as f64 / nodes[*i].capacity_bytes as f64 - mean,
        })
        .filter(|n| n.deviation.abs() > threshold)
        .collect()
}

/// The nodes with the most free space, for each volume.
fn ideals(cluster: &ClusterState) -> Vec<Option<Vec<RaftNodeId>>> {
    let mut nodes = cluster.nodes.clone();
    nodes.sort_by_key(|n| (n.used_bytes, n.id));
    cluster
        .volumes
        .iter()
        .map(|v| {
            if nodes.len() < v.replicas as usize {
                return None;
            }
            Some(nodes[..v.replicas as usize].iter().map(|n| n.id).collect())
        })
        .collect()
}

fn compute_moves(
    engine: &RebalanceEngine,
    cluster: &ClusterState,
    threshold: f64,
) -> Vec<RebalanceMove> {
    let overloaded: Vec<RaftNodeId> = detect_imbalance(&cluster.nodes, threshold)
        .iter()
        .filter(|n| n.deviation > 0.0)
        .map(|n| n.node_id)
        .collect();
    engine.compute_moves(cluster, &overloaded, &ideals(cluster))
}


fn gb(n: u64) -> u64 {
    n * 1024 * 1024 * 1024
}

fn make_node(id: RaftNodeId, capacity: u64, used: u64) -> NodeInfo {
    NodeInfo {
        id,
        tags: Vec::new(),
        state: NodeState::Healthy,
        zfs_health: ZfsHealthState::Online,
        capacity_bytes: capacity,
        used_bytes: used,
    }
}

fn make_engine() -> RebalanceEngine {
    RebalanceEngine::new(RebalanceConfig::default())
}

// ── Imbalance detection ─────────────────────────────────────────────

#[test]
fn test_detect_imbalance_balanced_cluster() {
    let nodes = vec![
        make_node(1, gb(100), gb(50)),
        make_node(2, gb(100), gb(50)),
        make_node(3, gb(100), gb(50)),
    ];
    let result = detect_imbalance(&nodes, 0.20);
    assert!(
        result.is_empty(),
        "evenly loaded cluster should have no imbalance"
    );
}

#[test]
fn test_detect_imbalance_one_hot_node() {
    let nodes = vec![
        make_node(1, gb(100), gb(90)), // 90% used
        make_node(2, gb(100), gb(10)), // 10% used
        make_node(3, gb(100), gb(10)), // 10% used
    ];
    // Mean = ~36.7%
    // Node 1 deviation ≈ +53.3% (>20%)
    // Node 2,3 deviation ≈ -26.7% (>20%)
    let result = detect_imbalance(&nodes, 0.20);
    assert!(
        result.len() >= 2,
        "expected at least 2 imbalanced nodes, got {}",
        result.len()
    );
    // Node 1 should be over-utilised.
    let hot = result.iter().find(|n| n.node_id == 1);
    assert!(hot.is_some());
    assert!(hot.map_or(false, |n| n.deviation > 0.0));
}

#[test]
fn test_detect_imbalance_empty_nodes() {
    let result = detect_imbalance(&vec![], 0.20);
    assert!(result.is_empty());
}

#[test]
fn test_detect_imbalance_zero_capacity() {
    let nodes = vec![make_node(1, 0, 0)];
    let result = detect_imbalance(&nodes, 0.20);
    assert!(result.is_empty());
}

#[test]
fn test_detect_imbalance_excludes_failed_nodes() {
    let mut hot_node = make_node(1, gb(100), gb(90));
    hot_node.state = NodeState::Failed;
    let nodes = vec![
        hot_node,
        make_node(2, gb(100), gb(50)),
        make_node(3, gb(100), gb(50)),
    ];
    let result = detect_imbalance(&nodes, 0.20);
    // With the failed node excluded, nodes 2 and 3 are perfectly balanced.
    assert!(result.is_empty());
}

#[test]
fn test_detect_imbalance_excludes_faulted_zfs() {
    let mut faulted = make_node(1, gb(100), gb(90));
    faulted.zfs_health = ZfsHealthState::Faulted;
    let nodes = vec![
        faulted,
        make_node(2, gb(100), gb(50)),
        make_node(3, gb(100), gb(50)),
    ];
    let result = detect_imbalance(&nodes, 0.20);
    assert!(result.is_empty());
}

#[test]
fn test_detect_imbalance_high_threshold() {
    let nodes = vec![
        make_node(1, gb(100), gb(90)),
        make_node(2, gb(100), gb(10)),
        make_node(3, gb(100), gb(10)),
    ];
    // 99% threshold → nothing triggers
    let result = detect_imbalance(&nodes, 0.99);
    assert!(result.is_empty());
}

#[test]
fn test_detect_imbalance_low_threshold() {
    let nodes = vec![make_node(1, gb(100), gb(55)), make_node(2, gb(100), gb(45))];
    // Mean = 50%. Deviations = ±5%. Threshold 1% → both trigger.
    let result = detect_imbalance(&nodes, 0.01);
    assert_eq!(result.len(), 2);
}

// ── Move computation ────────────────────────────────────────────────

#[test]
fn test_compute_moves_balanced_cluster() {
    let mut engine = make_engine();
    let cluster = ClusterState {
        nodes: vec![
            make_node(1, gb(100), gb(50)),
            make_node(2, gb(100), gb(50)),
            make_node(3, gb(100), gb(50)),
        ],
        volumes: vec![VolumeInfo {
            name: "vol-a".into(),
            size_bytes: gb(10),
            replicas: 3,
            placement: vec![1, 2, 3],
        }],
    };
    let moves = compute_moves(&engine, &cluster, 0.20);
    assert!(moves.is_empty(), "balanced cluster should produce no moves");
}

#[test]
fn test_compute_moves_imbalanced_produces_move() {
    let mut engine = make_engine();
    let cluster = ClusterState {
        nodes: vec![
            make_node(1, gb(100), gb(90)),
            make_node(2, gb(100), gb(10)),
            make_node(3, gb(100), gb(10)),
            make_node(4, gb(100), gb(10)),
        ],
        volumes: vec![VolumeInfo {
            name: "vol-a".into(),
            size_bytes: gb(10),
            replicas: 2,
            placement: vec![1, 2],
        }],
    };
    let moves = compute_moves(&engine, &cluster, 0.20);
    // The placement engine should prefer nodes with more free space,
    // which could move vol-a off node 1.
    // Exact behaviour depends on PlacementEngine; we just verify the
    // structure is correct for any produced move.
    for m in &moves {
        assert_eq!(m.volume_name, "vol-a");
        assert_eq!(m.state, MoveState::Pending);
        assert_eq!(m.total_bytes, gb(10));
        assert_eq!(m.bytes_transferred, 0);
    }
}

#[test]
fn test_compute_moves_no_volumes() {
    let mut engine = make_engine();
    let cluster = ClusterState {
        nodes: vec![make_node(1, gb(100), gb(90)), make_node(2, gb(100), gb(10))],
        volumes: vec![],
    };
    let moves = compute_moves(&engine, &cluster, 0.20);
    assert!(moves.is_empty());
}

// ── Throttling ──────────────────────────────────────────────────────

#[test]
fn test_throttling_limits_moves_per_node() {
    let config = RebalanceConfig {
        max_concurrent_moves_per_node: 1,
        throttle_bandwidth: "1Gbps".into(),
    };
    let mut engine = RebalanceEngine::new(config);

    // Pre-load an active move from node 1 → node 4.
    engine.enqueue_moves(vec![RebalanceMove {
        volume_name: "vol-existing".into(),
        source_node: 1,
        target_node: 4,
        state: MoveState::Syncing,
        bytes_transferred: 0,
        total_bytes: gb(10),
    }]);

    let cluster = ClusterState {
        nodes: vec![
            make_node(1, gb(100), gb(90)),
            make_node(2, gb(100), gb(10)),
            make_node(3, gb(100), gb(10)),
            make_node(4, gb(100), gb(10)),
            make_node(5, gb(100), gb(10)),
        ],
        volumes: vec![VolumeInfo {
            name: "vol-a".into(),
            size_bytes: gb(10),
            replicas: 2,
            placement: vec![1, 2],
        }],
    };

    let moves = compute_moves(&engine, &cluster, 0.20);
    // Node 1 already has 1 active move, so no additional moves should
    // use node 1 as source (throttled).
    for m in &moves {
        assert_ne!(
            m.source_node, 1,
            "node 1 should be throttled from additional source moves"
        );
    }
}

#[test]
fn test_throttling_higher_limit_allows_more() {
    let config = RebalanceConfig {
        max_concurrent_moves_per_node: 10,
        throttle_bandwidth: "10Gbps".into(),
    };
    let mut engine = RebalanceEngine::new(config);
    assert_eq!(engine.config().max_concurrent_moves_per_node, 10);
    assert_eq!(engine.config().throttle_bandwidth, "10Gbps");
}

// ── State transitions ───────────────────────────────────────────────

#[test]
fn test_move_state_pending_to_syncing() {
    let mut engine = make_engine();
    engine.enqueue_moves(vec![RebalanceMove {
        volume_name: "vol-a".into(),
        source_node: 1,
        target_node: 2,
        state: MoveState::Pending,
        bytes_transferred: 0,
        total_bytes: gb(10),
    }]);
    assert!(engine.start_syncing("vol-a"));
    let moves = engine.active_moves();
    assert_eq!(moves[0].state, MoveState::Syncing);
}

#[test]
fn test_move_state_syncing_to_promoting() {
    let mut engine = make_engine();
    engine.enqueue_moves(vec![RebalanceMove {
        volume_name: "vol-a".into(),
        source_node: 1,
        target_node: 2,
        state: MoveState::Syncing,
        bytes_transferred: gb(5),
        total_bytes: gb(10),
    }]);
    assert!(engine.start_promoting("vol-a"));
    let moves = engine.active_moves();
    assert_eq!(moves[0].state, MoveState::Promoting);
}

#[test]
fn test_move_state_promoting_to_completed() {
    let mut engine = make_engine();
    engine.enqueue_moves(vec![RebalanceMove {
        volume_name: "vol-a".into(),
        source_node: 1,
        target_node: 2,
        state: MoveState::Promoting,
        bytes_transferred: gb(8),
        total_bytes: gb(10),
    }]);
    assert!(engine.complete_move("vol-a"));
    let moves = engine.active_moves();
    assert_eq!(moves[0].state, MoveState::Completed);
    assert_eq!(moves[0].bytes_transferred, gb(10));
}

#[test]
fn test_move_state_fail() {
    let mut engine = make_engine();
    engine.enqueue_moves(vec![RebalanceMove {
        volume_name: "vol-a".into(),
        source_node: 1,
        target_node: 2,
        state: MoveState::Syncing,
        bytes_transferred: 0,
        total_bytes: gb(10),
    }]);
    engine.fail_move("vol-a", "network timeout");
    let moves = engine.active_moves();
    assert_eq!(moves[0].state, MoveState::Failed("network timeout".into()));
}

#[test]
fn test_complete_move_not_found() {
    let mut engine = make_engine();
    assert!(!engine.complete_move("nonexistent"));
}

#[test]
fn test_fail_move_already_completed() {
    let mut engine = make_engine();
    engine.enqueue_moves(vec![RebalanceMove {
        volume_name: "vol-a".into(),
        source_node: 1,
        target_node: 2,
        state: MoveState::Completed,
        bytes_transferred: gb(10),
        total_bytes: gb(10),
    }]);
    // Should be a no-op since already completed.
    engine.fail_move("vol-a", "too late");
    let moves = engine.active_moves();
    assert_eq!(moves[0].state, MoveState::Completed);
}

#[test]
fn test_start_syncing_wrong_state() {
    let mut engine = make_engine();
    engine.enqueue_moves(vec![RebalanceMove {
        volume_name: "vol-a".into(),
        source_node: 1,
        target_node: 2,
        state: MoveState::Syncing,
        bytes_transferred: 0,
        total_bytes: gb(10),
    }]);
    // Already syncing, should not transition again.
    assert!(!engine.start_syncing("vol-a"));
}

#[test]
fn test_start_promoting_wrong_state() {
    let mut engine = make_engine();
    engine.enqueue_moves(vec![RebalanceMove {
        volume_name: "vol-a".into(),
        source_node: 1,
        target_node: 2,
        state: MoveState::Pending,
        bytes_transferred: 0,
        total_bytes: gb(10),
    }]);
    // In Pending, not Syncing → should fail.
    assert!(!engine.start_promoting("vol-a"));
}

// ── Move counting & progress ────────────────────────────────────────

#[test]
fn test_move_count() {
    let mut engine = make_engine();
    engine.enqueue_moves(vec![
        RebalanceMove {
            volume_name: "vol-a".into(),
            source_node: 1,
            target_node: 2,
            state: MoveState::Pending,
            bytes_transferred: 0,
            total_bytes: gb(10),
        },
        RebalanceMove {
            volume_name: "vol-b".into(),
            source_node: 3,
            target_node: 4,
            state: MoveState::Completed,
            bytes_transferred: gb(5),
            total_bytes: gb(5),
        },
        RebalanceMove {
            volume_name: "vol-c".into(),
            source_node: 1,
            target_node: 3,
            state: MoveState::Failed("disk error".into()),
            bytes_transferred: 0,
            total_bytes: gb(10),
        },
    ]);
    // Only vol-a is active (Pending).
    assert_eq!(engine.move_count(), 1);
}

#[test]
fn test_update_progress() {
    let mut engine = make_engine();
    engine.enqueue_moves(vec![RebalanceMove {
        volume_name: "vol-a".into(),
        source_node: 1,
        target_node: 2,
        state: MoveState::Syncing,
        bytes_transferred: 0,
        total_bytes: gb(10),
    }]);
    assert!(engine.update_progress("vol-a", gb(5)));
    let moves = engine.active_moves();
    assert_eq!(moves[0].bytes_transferred, gb(5));
}

#[test]
fn test_update_progress_wrong_state() {
    let mut engine = make_engine();
    engine.enqueue_moves(vec![RebalanceMove {
        volume_name: "vol-a".into(),
        source_node: 1,
        target_node: 2,
        state: MoveState::Pending,
        bytes_transferred: 0,
        total_bytes: gb(10),
    }]);
    assert!(!engine.update_progress("vol-a", gb(5)));
}

// ── Drain finished ──────────────────────────────────────────────────

#[test]
fn test_drain_finished() {
    let mut engine = make_engine();
    engine.enqueue_moves(vec![
        RebalanceMove {
            volume_name: "vol-a".into(),
            source_node: 1,
            target_node: 2,
            state: MoveState::Completed,
            bytes_transferred: gb(10),
            total_bytes: gb(10),
        },
        RebalanceMove {
            volume_name: "vol-b".into(),
            source_node: 3,
            target_node: 4,
            state: MoveState::Syncing,
            bytes_transferred: gb(2),
            total_bytes: gb(10),
        },
    ]);
    let finished = engine.drain_finished();
    assert_eq!(finished.len(), 1);
    assert_eq!(finished[0].volume_name, "vol-a");
    // vol-b should still be active.
    assert_eq!(engine.active_moves().len(), 1);
    assert_eq!(engine.active_moves()[0].volume_name, "vol-b");
}

// ── MoveState Display ───────────────────────────────────────────────

#[test]
fn test_move_state_display() {
    assert_eq!(MoveState::Pending.to_text(), "pending");
    assert_eq!(MoveState::Syncing.to_text(), "syncing");
    assert_eq!(MoveState::Promoting.to_text(), "promoting");
    assert_eq!(MoveState::Completed.to_text(), "completed");
    assert_eq!(
        MoveState::Failed("disk error".into()).to_text(),
        "failed: disk error"
    );
}

// ── Config defaults ─────────────────────────────────────────────────

#[test]
fn test_config_default() {
    let config = RebalanceConfig::default();
    assert_eq!(config.max_concurrent_moves_per_node, 1);
    assert_eq!(config.throttle_bandwidth, "1Gbps");
}
fn cluster(volumes: Vec<VolumeInfo>) -> ClusterState {
    ClusterState {
        nodes: vec![
            make_node(1, gb(100), gb(90)),
            make_node(2, gb(100), gb(80)),
            make_node(3, gb(100), gb(10)),
            make_node(4, gb(100), gb(20)),
        ],
        volumes,
    }
}

fn volume(name: &str, placement: Vec<RaftNodeId>) -> VolumeInfo {
    VolumeInfo {
        name: name.to_string(),
        size_bytes: gb(1),
        replicas: placement.len() as u32,
        placement,
    }
}

#[test]
fn moves_leave_overloaded_nodes_for_ideal_ones() {
    let engine = RebalanceEngine::new(RebalanceConfig {
        max_concurrent_moves_per_node: 1,
        throttle_bandwidth: "1Gbps".to_string(),
    });
    let cluster = cluster(vec![
        volume("a", vec![1, 2]),
        volume("b", vec![1, 4]),
        volume("c", vec![3, 4]),
    ]);
    let wanted = vec![Some(vec![3, 4]), Some(vec![3, 4]), Some(vec![1, 2])];
    let moves = engine.compute_moves(&cluster, &[1, 2], &wanted);
    let pairs: Vec<(&str, RaftNodeId, RaftNodeId)> = moves
        .iter()
        .map(|m| (m.volume_name.as_str(), m.source_node, m.target_node))
        .collect();
    // The second volume would need node 1 again, and the third is on no overloaded node.
    assert_eq!(pairs, vec![("a", 1, 3), ("a", 2, 4)]);
}

#[test]
fn a_node_that_is_not_healthy_receives_nothing() {
    let engine = RebalanceEngine::new(RebalanceConfig::default());
    let mut state = cluster(vec![volume("a", vec![1])]);
    state.nodes[2].state = NodeState::Failed;
    let moves = engine.compute_moves(&state, &[1], &vec![Some(vec![3])]);
    assert!(moves.is_empty());
}

#[test]
fn a_volume_without_an_ideal_stays() {
    let engine = RebalanceEngine::new(RebalanceConfig::default());
    let state = cluster(vec![volume("a", vec![1])]);
    assert!(engine.compute_moves(&state, &[1], &vec![None]).is_empty());
}

#[test]
fn the_load_is_that_of_the_nodes_that_count() {
    let mut nodes = cluster(vec![]).nodes;
    nodes[1].zfs_health = ZfsHealthState::Degraded;
    nodes[2].capacity_bytes = 0;
    let load = cluster_load(&nodes);
    assert_eq!(load.nodes, vec![0, 3]);
    assert_eq!(load.total_used, gb(110) as u128);
    assert_eq!(load.total_capacity, gb(200) as u128);
}
