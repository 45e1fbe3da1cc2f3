use blockyard::storage::ec_placement::{place_extent_chunks, EcPlacement};
use blockyard::storage::placement::PlacementEngine;
use blockyard::types::{NodeInfo, NodeState, RaftNodeId, ZfsHealthState};
use std::collections::HashSet;


fn gb(n: u64) -> u64 {
    n * 1024 * 1024 * 1024
}

fn make_node(id: RaftNodeId, tags: &[(&str, &str)], capacity: u64, used: u64) -> NodeInfo {
    NodeInfo {
        id,
        tags: tags
            .iter()
            .map(|(k, v)| (k.to_string(), v.to_string()))
            .collect(),
        state: NodeState::Healthy,
        zfs_health: ZfsHealthState::Online,
        capacity_bytes: capacity,
        used_bytes: used,
    }
}

// ── Basic placement ──────────────────────────────────────────────────

#[test]
fn test_place_rs_4_2_across_6_nodes() {
    let engine = PlacementEngine::new();
    let candidates: Vec<NodeInfo> = (1..=6)
        .map(|id| make_node(id, &[], gb(100), 0))
        .collect();

    let placement = place_extent_chunks(42, 4, 2, &candidates, &engine).unwrap();
    assert_eq!(placement.extent_id, 42);
    assert_eq!(placement.chunks.len(), 6);

    // All 6 different nodes.
    let node_ids: HashSet<RaftNodeId> = placement.chunks.iter().map(|c| c.node_id).collect();
    assert_eq!(node_ids.len(), 6);

    // Check data vs parity flags.
    for chunk in &placement.chunks {
        if chunk.chunk_index < 4 {
            assert!(!chunk.is_parity, "chunk {} should be data", chunk.chunk_index);
        } else {
            assert!(chunk.is_parity, "chunk {} should be parity", chunk.chunk_index);
        }
    }
}

#[test]
fn test_place_rs_2_1_across_3_nodes() {
    let engine = PlacementEngine::new();
    let candidates: Vec<NodeInfo> = (1..=3)
        .map(|id| make_node(id, &[], gb(100), 0))
        .collect();

    let placement = place_extent_chunks(1, 2, 1, &candidates, &engine).unwrap();
    assert_eq!(placement.chunks.len(), 3);

    let node_ids: HashSet<RaftNodeId> = placement.chunks.iter().map(|c| c.node_id).collect();
    assert_eq!(node_ids.len(), 3);
}

// ── Not enough nodes → error ────────────────────────────────────────

#[test]
fn test_not_enough_nodes() {
    let engine = PlacementEngine::new();
    let candidates: Vec<NodeInfo> = (1..=4)
        .map(|id| make_node(id, &[], gb(100), 0))
        .collect();

    let result = place_extent_chunks(1, 4, 2, &candidates, &engine);
    assert!(result.is_err());
}

#[test]
fn test_not_enough_healthy_nodes() {
    let engine = PlacementEngine::new();
    let mut candidates: Vec<NodeInfo> = (1..=6)
        .map(|id| make_node(id, &[], gb(100), 0))
        .collect();
    // Mark 2 as failed.
    candidates[4].state = NodeState::Failed;
    candidates[5].state = NodeState::Failed;

    let result = place_extent_chunks(1, 4, 2, &candidates, &engine);
    assert!(result.is_err());
}

// ── Failure domain spreading ────────────────────────────────────────

#[test]
fn test_failure_domain_spreading() {
    let engine = PlacementEngine::new();
    let candidates = vec![
        make_node(1, &[("rack", "r1")], gb(100), 0),
        make_node(2, &[("rack", "r1")], gb(100), 0),
        make_node(3, &[("rack", "r2")], gb(100), 0),
        make_node(4, &[("rack", "r2")], gb(100), 0),
        make_node(5, &[("rack", "r3")], gb(100), 0),
        make_node(6, &[("rack", "r3")], gb(100), 0),
    ];

    let placement = place_extent_chunks(1, 4, 2, &candidates, &engine).unwrap();
    assert_eq!(placement.chunks.len(), 6);

    // Verify we use nodes from all 3 racks.
    let racks: HashSet<String> = placement
        .chunks
        .iter()
        .map(|c| {
            candidates
                .iter()
                .find(|n| n.id == c.node_id)
                .unwrap()
                .tags
                .iter()
                .find(|(k, _)| k == "rack")
                .unwrap()
                .1
                .clone()
        })
        .collect();
    assert_eq!(racks.len(), 3, "should spread across all 3 racks");
}

#[test]
fn test_failure_domain_6_racks_6_nodes() {
    let engine = PlacementEngine::new();
    let candidates: Vec<NodeInfo> = (1..=6)
        .map(|id| make_node(id, &[("rack", &format!("r{id}"))], gb(100), 0))
        .collect();

    let placement = place_extent_chunks(1, 4, 2, &candidates, &engine).unwrap();

    // Each chunk on a different rack.
    let racks: HashSet<String> = placement
        .chunks
        .iter()
        .map(|c| {
            candidates
                .iter()
                .find(|n| n.id == c.node_id)
                .unwrap()
                .tags
                .iter()
                .find(|(k, _)| k == "rack")
                .unwrap()
                .1
                .clone()
        })
        .collect();
    assert_eq!(racks.len(), 6, "all 6 racks should be used");
}

// ── Excludes faulted ZFS nodes ──────────────────────────────────────

#[test]
fn test_excludes_faulted_zfs() {
    let engine = PlacementEngine::new();
    let mut candidates: Vec<NodeInfo> = (1..=7)
        .map(|id| make_node(id, &[], gb(100), 0))
        .collect();
    candidates[0].zfs_health = ZfsHealthState::Faulted;

    let placement = place_extent_chunks(1, 4, 2, &candidates, &engine).unwrap();
    let node_ids: HashSet<RaftNodeId> = placement.chunks.iter().map(|c| c.node_id).collect();
    assert!(!node_ids.contains(&1), "faulted node should be excluded");
}

// ── More nodes than needed → selects subset ─────────────────────────

#[test]
fn test_more_nodes_than_needed() {
    let engine = PlacementEngine::new();
    let candidates: Vec<NodeInfo> = (1..=10)
        .map(|id| make_node(id, &[], gb(100), 0))
        .collect();

    let placement = place_extent_chunks(1, 2, 1, &candidates, &engine).unwrap();
    assert_eq!(placement.chunks.len(), 3);

    let node_ids: HashSet<RaftNodeId> = placement.chunks.iter().map(|c| c.node_id).collect();
    assert_eq!(node_ids.len(), 3, "should only use 3 nodes for RS(2,1)");
}

// ── Chunk index ordering ────────────────────────────────────────────

#[test]
fn test_chunk_indices_sequential() {
    let engine = PlacementEngine::new();
    let candidates: Vec<NodeInfo> = (1..=6)
        .map(|id| make_node(id, &[], gb(100), 0))
        .collect();

    let placement = place_extent_chunks(1, 4, 2, &candidates, &engine).unwrap();
    for (i, chunk) in placement.chunks.iter().enumerate() {
        assert_eq!(chunk.chunk_index, i);
    }
}
#[test]
fn selection_is_complete_and_of_different_nodes() {
    let engine = PlacementEngine::new();
    let candidates: Vec<NodeInfo> = (1..=9)
        .map(|id| make_node(id, &[("rack", if id < 4 { "a" } else { "b" })], gb(100), gb(id)))
        .collect();
    for k in 1..=6 {
        for m in 1..=3 {
            let placement = place_extent_chunks(1, k, m, &candidates, &engine).unwrap();
            let nodes: HashSet<RaftNodeId> = placement.chunks.iter().map(|c| c.node_id).collect();
            assert_eq!(nodes.len(), k + m);
        }
    }
    assert!(place_extent_chunks(1, 7, 3, &candidates, &engine).is_err());
}

#[test]
fn refusal_to_place_names_the_numbers() {
    let engine = PlacementEngine::new();
    let candidates: Vec<NodeInfo> = (1..=2).map(|id| make_node(id, &[], gb(1), 0)).collect();
    let err = place_extent_chunks(1, 4, 2, &candidates, &engine).unwrap_err();
    assert!(err.to_text().contains('6'));
    assert!(err.to_text().contains('2'));
}

fn chosen(placement: &EcPlacement) -> Vec<RaftNodeId> {
    placement.chunks.iter().map(|c| c.node_id).collect()
}

#[test]
fn the_freest_nodes_come_first() {
    let engine = PlacementEngine::new();
    let two = vec![make_node(1, &[], 100, 90), make_node(2, &[], 100, 10)];
    let placement = place_extent_chunks(1, 1, 0, &two, &engine).unwrap();
    assert_eq!(chosen(&placement), vec![2]);

    let candidates = vec![
        make_node(1, &[("rack", "a")], 100, 80),
        make_node(2, &[("rack", "b")], 100, 70),
        make_node(3, &[("rack", "a")], 100, 30),
        make_node(4, &[], 100, 50),
        make_node(5, &[("rack", "b")], 100, 50),
        make_node(6, &[], 100, 95),
    ];
    let placement = place_extent_chunks(1, 4, 2, &candidates, &engine).unwrap();
    assert_eq!(chosen(&placement), vec![3, 5, 4, 6, 1, 2]);
    let placement = place_extent_chunks(1, 2, 1, &candidates, &engine).unwrap();
    assert_eq!(chosen(&placement), vec![3, 5, 4]);
}
