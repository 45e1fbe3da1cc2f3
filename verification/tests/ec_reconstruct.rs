use blockyard::storage::ec_placement::{ChunkLocation, EcPlacement};
use blockyard::storage::ec_reconstruct::{plan_reconstruction, reconstruct};
use blockyard::storage::erasure::ErasureCodec;


/// Build an EcPlacement for RS(k, m) with chunk i on node i+1.
fn make_placement(extent_id: u64, k: usize, m: usize) -> EcPlacement {
    let total = k + m;
    let chunks = (0..total)
        .map(|i| ChunkLocation {
            chunk_index: i,
            node_id: (i + 1) as u64,
            is_parity: i >= k,
        })
        .collect();
    EcPlacement { extent_id, chunks }
}

// ── No failures ─────────────────────────────────────────────────────

#[test]
fn test_plan_no_failures() {
    let placement = make_placement(1, 4, 2);
    let plan = plan_reconstruction(&placement, &[]);

    assert_eq!(plan.extent_id, 1);
    assert_eq!(plan.available_chunks.len(), 6);
    assert!(plan.missing_chunks.is_empty());
    assert!(plan.can_reconstruct);
}

// ── 1 data node failure ─────────────────────────────────────────────

#[test]
fn test_plan_one_data_node_failure() {
    let placement = make_placement(1, 4, 2);
    // Node 1 stores chunk 0 (data).
    let plan = plan_reconstruction(&placement, &[1]);

    assert_eq!(plan.available_chunks.len(), 5);
    assert_eq!(plan.missing_chunks.len(), 1);
    assert_eq!(plan.missing_chunks[0], (0, 1));
    assert!(plan.can_reconstruct);
}

// ── 1 parity node failure ───────────────────────────────────────────

#[test]
fn test_plan_one_parity_node_failure() {
    let placement = make_placement(1, 4, 2);
    // Node 5 stores chunk 4 (parity).
    let plan = plan_reconstruction(&placement, &[5]);

    assert_eq!(plan.available_chunks.len(), 5);
    assert_eq!(plan.missing_chunks.len(), 1);
    assert!(plan.can_reconstruct);
}

// ── m node failures → can still reconstruct ─────────────────────────

#[test]
fn test_plan_m_failures_all_parity() {
    let placement = make_placement(1, 4, 2);
    // Lose both parity nodes (5 and 6).
    let plan = plan_reconstruction(&placement, &[5, 6]);

    assert_eq!(plan.available_chunks.len(), 4);
    assert_eq!(plan.missing_chunks.len(), 2);
    assert!(plan.can_reconstruct);
}

#[test]
fn test_plan_m_failures_mixed() {
    let placement = make_placement(1, 4, 2);
    // Lose 1 data (node 2, chunk 1) + 1 parity (node 5, chunk 4).
    let plan = plan_reconstruction(&placement, &[2, 5]);

    assert_eq!(plan.available_chunks.len(), 4);
    assert_eq!(plan.missing_chunks.len(), 2);
    assert!(plan.can_reconstruct);
}

#[test]
fn test_plan_m_failures_all_data() {
    let placement = make_placement(1, 4, 2);
    // Lose 2 data nodes (node 1, node 2).
    let plan = plan_reconstruction(&placement, &[1, 2]);

    assert_eq!(plan.available_chunks.len(), 4);
    assert_eq!(plan.missing_chunks.len(), 2);
    assert!(plan.can_reconstruct);
}

// ── m+1 node failures → cannot reconstruct ──────────────────────────

#[test]
fn test_plan_m_plus_1_failures() {
    let placement = make_placement(1, 4, 2);
    // Lose 3 nodes.
    let plan = plan_reconstruction(&placement, &[1, 2, 5]);

    assert_eq!(plan.available_chunks.len(), 3);
    assert_eq!(plan.missing_chunks.len(), 3);
    assert!(
        !plan.can_reconstruct,
        "should not be able to reconstruct with only 3 of 4 needed"
    );
}

#[test]
fn test_plan_all_nodes_failed() {
    let placement = make_placement(1, 4, 2);
    let plan = plan_reconstruction(&placement, &[1, 2, 3, 4, 5, 6]);

    assert!(plan.available_chunks.is_empty());
    assert_eq!(plan.missing_chunks.len(), 6);
    assert!(!plan.can_reconstruct);
}

// ── Reconstruction wrapper ──────────────────────────────────────────

#[test]
fn test_reconstruct_wrapper_success() {
    let codec = ErasureCodec::new(4, 2).unwrap();
    let data = b"reconstruct wrapper test data!!";
    let encoded = codec.encode(data).unwrap();

    let mut chunks: Vec<Option<Vec<u8>>> = encoded.into_iter().map(Some).collect();
    // Drop 1 data + 1 parity.
    chunks[0] = None;
    chunks[5] = None;

    let result = reconstruct(&codec, &chunks).unwrap();
    assert_eq!(&result[..data.len()], data.as_slice());
}

#[test]
fn test_reconstruct_wrapper_insufficient() {
    let codec = ErasureCodec::new(4, 2).unwrap();
    let data = b"this will fail to reconstruct";
    let encoded = codec.encode(data).unwrap();

    let mut chunks: Vec<Option<Vec<u8>>> = encoded.into_iter().map(Some).collect();
    // Drop 3 chunks (> m=2).
    chunks[0] = None;
    chunks[1] = None;
    chunks[4] = None;

    let result = reconstruct(&codec, &chunks);
    assert!(result.is_err());
}

// ── RS(2,1) plans ───────────────────────────────────────────────────

#[test]
fn test_plan_rs_2_1_no_failures() {
    let placement = make_placement(1, 2, 1);
    let plan = plan_reconstruction(&placement, &[]);
    assert!(plan.can_reconstruct);
    assert_eq!(plan.available_chunks.len(), 3);
}

#[test]
fn test_plan_rs_2_1_one_failure() {
    let placement = make_placement(1, 2, 1);
    let plan = plan_reconstruction(&placement, &[1]);
    assert!(plan.can_reconstruct);
    assert_eq!(plan.available_chunks.len(), 2);
}

#[test]
fn test_plan_rs_2_1_two_failures() {
    let placement = make_placement(1, 2, 1);
    let plan = plan_reconstruction(&placement, &[1, 3]);
    // Only 1 chunk left, need 2 (k=2).
    assert!(!plan.can_reconstruct);
}

// ── RS(6,3) plans ───────────────────────────────────────────────────

#[test]
fn test_plan_rs_6_3_three_failures() {
    let placement = make_placement(1, 6, 3);
    let plan = plan_reconstruction(&placement, &[1, 5, 9]);
    assert_eq!(plan.available_chunks.len(), 6);
    assert!(plan.can_reconstruct);
}

#[test]
fn test_plan_rs_6_3_four_failures() {
    let placement = make_placement(1, 6, 3);
    let plan = plan_reconstruction(&placement, &[1, 2, 7, 8]);
    assert_eq!(plan.available_chunks.len(), 5);
    // Need 6, only have 5.
    assert!(!plan.can_reconstruct);
}

// ── Failed nodes not in placement are ignored ───────────────────────

#[test]
fn test_plan_irrelevant_failed_node() {
    let placement = make_placement(1, 4, 2);
    // Node 99 doesn't host any chunks.
    let plan = plan_reconstruction(&placement, &[99]);
    assert_eq!(plan.available_chunks.len(), 6);
    assert!(plan.missing_chunks.is_empty());
    assert!(plan.can_reconstruct);
}
#[test]
fn every_chunk_is_available_or_missing() {
    let placement = make_placement(9, 4, 2);
    for failed in 0..8u64 {
        let plan = plan_reconstruction(&placement, &[failed]);
        assert_eq!(plan.available_chunks.len() + plan.missing_chunks.len(), 6);
        for (_, node) in &plan.available_chunks {
            assert_ne!(*node, failed);
        }
        for (_, node) in &plan.missing_chunks {
            assert_eq!(*node, failed);
        }
    }
}
