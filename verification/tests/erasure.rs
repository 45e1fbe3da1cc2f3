use blockyard::storage::erasure::{ErasureCodec, ErasureError};


// ── Helper ────────────────────────────────────────────────────────────

/// Encode `data` with the given codec, then decode all chunks and
/// verify the round-trip matches.
fn roundtrip(k: usize, m: usize, data: &[u8]) {
    let codec = ErasureCodec::new(k, m).unwrap();
    let chunks = codec.encode(data).unwrap();
    assert_eq!(chunks.len(), k + m);

    let original_len = data.len();
    let input: Vec<Option<Vec<u8>>> = chunks.into_iter().map(Some).collect();
    let decoded = codec.decode(&input).unwrap();
    assert_eq!(&decoded[..original_len], data);
}

/// Encode, drop specific chunks, then decode and verify round-trip.
fn roundtrip_with_drops(k: usize, m: usize, data: &[u8], drops: &[usize]) {
    let codec = ErasureCodec::new(k, m).unwrap();
    let chunks = codec.encode(data).unwrap();
    let original_len = data.len();

    let mut input: Vec<Option<Vec<u8>>> = chunks.into_iter().map(Some).collect();
    for &idx in drops {
        input[idx] = None;
    }
    let decoded = codec.decode(&input).unwrap();
    assert_eq!(&decoded[..original_len], data);
}

/// Encode, drop specific chunks, decode should fail.
fn roundtrip_should_fail(k: usize, m: usize, data: &[u8], drops: &[usize]) {
    let codec = ErasureCodec::new(k, m).unwrap();
    let chunks = codec.encode(data).unwrap();

    let mut input: Vec<Option<Vec<u8>>> = chunks.into_iter().map(Some).collect();
    for &idx in drops {
        input[idx] = None;
    }
    let result = codec.decode(&input);
    assert!(result.is_err(), "expected decode to fail");
}

// ── Basic encode/decode ──────────────────────────────────────────────

#[test]
fn test_encode_decode_all_chunks_rs_2_1() {
    roundtrip(2, 1, b"hello world, this is a test");
}

#[test]
fn test_encode_decode_all_chunks_rs_4_2() {
    roundtrip(4, 2, b"Reed-Solomon erasure coding is great!");
}

#[test]
fn test_encode_decode_all_chunks_rs_6_3() {
    roundtrip(6, 3, b"testing RS(6,3) with some data that is longer");
}

#[test]
fn test_encode_decode_all_chunks_rs_8_4() {
    roundtrip(
        8,
        4,
        b"testing RS(8,4) with a somewhat longer payload here.",
    );
}

// ── Drop 1 parity chunk ─────────────────────────────────────────────

#[test]
fn test_drop_one_parity_rs_2_1() {
    // k=2, m=1: drop parity shard (index 2)
    roundtrip_with_drops(2, 1, b"parity test", &[2]);
}

#[test]
fn test_drop_one_parity_rs_4_2() {
    // k=4, m=2: drop one parity shard (index 4)
    roundtrip_with_drops(4, 2, b"parity test four-two", &[4]);
}

// ── Drop all m parity chunks ────────────────────────────────────────

#[test]
fn test_drop_all_parity_rs_2_1() {
    roundtrip_with_drops(2, 1, b"only data shards", &[2]);
}

#[test]
fn test_drop_all_parity_rs_4_2() {
    roundtrip_with_drops(4, 2, b"only data shards remain", &[4, 5]);
}

#[test]
fn test_drop_all_parity_rs_6_3() {
    roundtrip_with_drops(6, 3, b"drop all parity shards for 6+3", &[6, 7, 8]);
}

#[test]
fn test_drop_all_parity_rs_8_4() {
    roundtrip_with_drops(8, 4, b"drop all parity shards for 8+4", &[8, 9, 10, 11]);
}

// ── Drop 1 data chunk ───────────────────────────────────────────────

#[test]
fn test_drop_one_data_rs_2_1() {
    roundtrip_with_drops(2, 1, b"data reconstruct 2+1", &[0]);
}

#[test]
fn test_drop_one_data_rs_4_2() {
    roundtrip_with_drops(4, 2, b"data reconstruct 4+2", &[1]);
}

#[test]
fn test_drop_one_data_rs_6_3() {
    roundtrip_with_drops(6, 3, b"data reconstruct 6+3 test data!!", &[3]);
}

#[test]
fn test_drop_one_data_rs_8_4() {
    roundtrip_with_drops(8, 4, b"data reconstruct 8+4 some longer payload data", &[5]);
}

// ── Drop m chunks (mix of data + parity) ────────────────────────────

#[test]
fn test_drop_m_mixed_rs_2_1() {
    // m=1, drop 1 data shard
    roundtrip_with_drops(2, 1, b"mixed drop 2+1", &[0]);
}

#[test]
fn test_drop_m_mixed_rs_4_2() {
    // m=2, drop 1 data + 1 parity
    roundtrip_with_drops(4, 2, b"mixed drop 4+2 test data", &[1, 5]);
}

#[test]
fn test_drop_m_mixed_rs_6_3() {
    // m=3, drop 2 data + 1 parity
    roundtrip_with_drops(6, 3, b"mixed drop 6+3 test data payload!!", &[0, 2, 7]);
}

#[test]
fn test_drop_m_mixed_rs_8_4() {
    // m=4, drop 2 data + 2 parity
    roundtrip_with_drops(
        8,
        4,
        b"mixed drop 8+4 with a longer test payload for erasure coding",
        &[1, 3, 9, 11],
    );
}

// ── Drop m+1 chunks → error ─────────────────────────────────────────

#[test]
fn test_drop_m_plus_1_rs_2_1() {
    // m=1, drop 2 chunks → only 1 of 2 data shards available
    roundtrip_should_fail(2, 1, b"too many drops", &[0, 2]);
}

#[test]
fn test_drop_m_plus_1_rs_4_2() {
    // m=2, drop 3 chunks
    roundtrip_should_fail(4, 2, b"too many drops 4+2", &[0, 1, 4]);
}

#[test]
fn test_drop_m_plus_1_rs_6_3() {
    // m=3, drop 4 chunks
    roundtrip_should_fail(6, 3, b"too many drops 6+3 data!!", &[0, 1, 2, 6]);
}

#[test]
fn test_drop_m_plus_1_rs_8_4() {
    // m=4, drop 5 chunks
    roundtrip_should_fail(
        8,
        4,
        b"too many drops 8+4 longer data here!",
        &[0, 1, 2, 3, 8],
    );
}

// ── Various data sizes (not aligned to k) ───────────────────────────

#[test]
fn test_unaligned_data_rs_4_2() {
    // 13 bytes / 4 chunks = 3.25 → chunk_size = 4, padded to 16
    let data = b"thirteen byte";
    roundtrip(4, 2, data);
}

#[test]
fn test_unaligned_data_rs_6_3() {
    // 7 bytes / 6 chunks = 1.17 → chunk_size = 2
    let data = b"7-bytes";
    roundtrip(6, 3, data);
}

#[test]
fn test_unaligned_data_rs_8_4() {
    // 17 bytes / 8 chunks = 2.125 → chunk_size = 3
    let data = b"seventeen bytes!X";
    roundtrip(8, 4, data);
}

#[test]
fn test_single_byte_aligned() {
    // 4 bytes / 4 chunks = 1 byte each (aligned)
    roundtrip(4, 2, b"ABCD");
}

#[test]
fn test_exactly_k_bytes() {
    roundtrip(2, 1, b"AB");
    roundtrip(4, 2, b"ABCD");
    roundtrip(6, 3, b"ABCDEF");
}

// ── Empty data → error ──────────────────────────────────────────────

#[test]
fn test_empty_data_error() {
    let codec = ErasureCodec::new(4, 2).unwrap();
    let result = codec.encode(b"");
    assert!(matches!(result, Err(ErasureError::EmptyData)));
}

// ── 1-byte data ─────────────────────────────────────────────────────

#[test]
fn test_single_byte_data_rs_2_1() {
    roundtrip(2, 1, &[0x42]);
}

#[test]
fn test_single_byte_data_rs_4_2() {
    roundtrip(4, 2, &[0xFF]);
}

#[test]
fn test_single_byte_data_rs_6_3() {
    roundtrip(6, 3, &[0x01]);
}

#[test]
fn test_single_byte_data_rs_8_4() {
    roundtrip(8, 4, &[0xAB]);
}

// ── Large data (1MB) ────────────────────────────────────────────────

#[test]
fn test_large_data_1mb_rs_4_2() {
    let data: Vec<u8> = (0..1_048_576u32).map(|i| (i % 256) as u8).collect();
    roundtrip(4, 2, &data);
}

#[test]
fn test_large_data_1mb_rs_4_2_with_drops() {
    let data: Vec<u8> = (0..1_048_576u32).map(|i| (i % 256) as u8).collect();
    // Drop 2 chunks (max m=2)
    roundtrip_with_drops(4, 2, &data, &[0, 5]);
}

#[test]
fn test_large_data_1mb_rs_8_4() {
    let data: Vec<u8> = (0..1_048_576u32).map(|i| (i * 7 % 256) as u8).collect();
    roundtrip(8, 4, &data);
}

#[test]
fn test_large_data_1mb_rs_8_4_with_drops() {
    let data: Vec<u8> = (0..1_048_576u32).map(|i| (i * 7 % 256) as u8).collect();
    // Drop 4 chunks (max m=4)
    roundtrip_with_drops(8, 4, &data, &[1, 3, 8, 10]);
}

// ── Constructor validation ──────────────────────────────────────────

#[test]
fn test_invalid_params_zero_data_shards() {
    let result = ErasureCodec::new(0, 2);
    assert!(matches!(result, Err(ErasureError::InvalidParams(_))));
}

#[test]
fn test_invalid_params_zero_parity_shards() {
    let result = ErasureCodec::new(4, 0);
    assert!(matches!(result, Err(ErasureError::InvalidParams(_))));
}

#[test]
fn test_invalid_params_both_zero() {
    let result = ErasureCodec::new(0, 0);
    assert!(matches!(result, Err(ErasureError::InvalidParams(_))));
}

// ── Accessor methods ────────────────────────────────────────────────

#[test]
fn test_accessors() {
    let codec = ErasureCodec::new(4, 2).unwrap();
    assert_eq!(codec.data_shards(), 4);
    assert_eq!(codec.parity_shards(), 2);
    assert_eq!(codec.total_shards(), 6);
}

#[test]
fn test_chunk_size_aligned() {
    let codec = ErasureCodec::new(4, 2).unwrap();
    assert_eq!(codec.chunk_size(16), 4);
    assert_eq!(codec.chunk_size(8), 2);
}

#[test]
fn test_chunk_size_unaligned() {
    let codec = ErasureCodec::new(4, 2).unwrap();
    assert_eq!(codec.chunk_size(13), 4); // ceil(13/4) = 4
    assert_eq!(codec.chunk_size(1), 1); // ceil(1/4) = 1
    assert_eq!(codec.chunk_size(5), 2); // ceil(5/4) = 2
}

// ── Decode with wrong chunk count ───────────────────────────────────

#[test]
fn test_decode_wrong_chunk_count() {
    let codec = ErasureCodec::new(4, 2).unwrap();
    let chunks: Vec<Option<Vec<u8>>> = vec![Some(vec![0; 4]); 5]; // 5 != 6
    let result = codec.decode(&chunks);
    assert!(matches!(result, Err(ErasureError::InvalidParams(_))));
}

// ── ErasureError Display ────────────────────────────────────────────

#[test]
fn test_erasure_error_display() {
    assert_eq!(ErasureError::EmptyData.to_text(), "empty data");
    assert_eq!(
        ErasureError::InvalidParams("bad".into()).to_text(),
        "invalid erasure params: bad"
    );
    assert_eq!(
        ErasureError::InsufficientShards {
            available: 2,
            required: 4
        }
        .to_text(),
        "insufficient shards: 2 available, 4 required"
    );
    assert_eq!(
        ErasureError::Internal("oops".into()).to_text(),
        "internal erasure error: oops"
    );
}

// ── Drop exact boundary cases ───────────────────────────────────────

#[test]
fn test_drop_exactly_m_data_shards_rs_4_2() {
    // Drop 2 data shards, keep all 2 parity → should succeed (4 of 4 needed available)
    roundtrip_with_drops(4, 2, b"boundary test 4+2", &[0, 1]);
}

#[test]
fn test_drop_exactly_m_data_shards_rs_6_3() {
    // Drop 3 data shards, keep all 3 parity → should succeed (6 of 6 needed available)
    roundtrip_with_drops(6, 3, b"boundary test 6+3 with enough data.", &[0, 1, 2]);
}

#[test]
fn test_all_parity_dropped_single_data_dropped_rs_4_2_fails() {
    // Drop 2 parity + 1 data = 3 drops > m=2 → fail
    roundtrip_should_fail(4, 2, b"should fail", &[0, 4, 5]);
}

// ── Reconstruction with different drop patterns ─────────────────────

#[test]
fn test_drop_last_data_shard_rs_4_2() {
    roundtrip_with_drops(4, 2, b"drop last data shard", &[3]);
}

#[test]
fn test_drop_first_and_last_data_shards_rs_4_2() {
    roundtrip_with_drops(4, 2, b"drop first and last data shards", &[0, 3]);
}

#[test]
fn test_drop_all_data_shards_fails_rs_4_2() {
    // Drop all 4 data shards, only 2 parity left < k=4
    roundtrip_should_fail(4, 2, b"all data gone", &[0, 1, 2, 3]);
}

// ── Binary data patterns ────────────────────────────────────────────

#[test]
fn test_all_zeros() {
    let data = vec![0u8; 1024];
    roundtrip(4, 2, &data);
}

#[test]
fn test_all_ones() {
    let data = vec![0xFFu8; 1024];
    roundtrip(4, 2, &data);
}

#[test]
fn test_alternating_pattern() {
    let data: Vec<u8> = (0..1024)
        .map(|i| if i % 2 == 0 { 0xAA } else { 0x55 })
        .collect();
    roundtrip(4, 2, &data);
}
#[test]
fn parity_differs_from_the_data() {
    // With the code of the crate, one data shard is repeated by its parity shards, and
    // the parity of two different shards is neither of them.
    let codec = ErasureCodec::new(2, 1).unwrap();
    let chunks = codec.encode(&[1, 2, 3, 4]).unwrap();
    assert_eq!(chunks[0], vec![1, 2]);
    assert_eq!(chunks[1], vec![3, 4]);
    assert_ne!(chunks[2], vec![0, 0]);
    assert_ne!(chunks[2], chunks[0]);
    assert_ne!(chunks[2], chunks[1]);
}

#[test]
fn any_two_of_six_chunks_may_be_lost() {
    let data: Vec<u8> = (0..100u8).collect();
    let codec = ErasureCodec::new(4, 2).unwrap();
    let chunks = codec.encode(&data).unwrap();
    for a in 0..6 {
        for b in 0..6 {
            let mut left: Vec<Option<Vec<u8>>> = chunks.iter().cloned().map(Some).collect();
            left[a] = None;
            left[b] = None;
            assert_eq!(codec.decode(&left).unwrap(), data);
        }
    }
}

#[test]
fn decoded_data_is_padded_with_zeros() {
    let codec = ErasureCodec::new(4, 2).unwrap();
    let chunks = codec.encode(&[7, 8, 9, 10, 11]).unwrap();
    assert_eq!(chunks[0], vec![7, 8]);
    assert_eq!(chunks[2], vec![11, 0]);
    assert_eq!(chunks[3], vec![0, 0]);
    let left: Vec<Option<Vec<u8>>> = chunks.into_iter().map(Some).collect();
    assert_eq!(codec.decode(&left).unwrap(), vec![7, 8, 9, 10, 11, 0, 0, 0]);
}

#[test]
fn too_many_shards_are_refused() {
    assert!(ErasureCodec::new(255, 1).is_ok());
    match ErasureCodec::new(255, 2) {
        Err(ErasureError::Internal(msg)) => assert_eq!(
            msg,
            "failed to create RS codec: The number of provided shards is greater than the one in codec"
        ),
        other => panic!("expected Internal, got {:?}", other),
    }
}

#[test]
fn shards_of_different_sizes_are_refused() {
    let codec = ErasureCodec::new(2, 1).unwrap();
    let uneven = vec![Some(vec![1, 2]), Some(vec![3]), None];
    match codec.decode(&uneven) {
        Err(ErasureError::Internal(msg)) => assert_eq!(
            msg,
            "reconstruct failed: At least one of the provided shards is not of the correct size"
        ),
        other => panic!("expected Internal, got {:?}", other),
    }
    let empty = vec![Some(vec![]), Some(vec![]), None];
    match codec.decode(&empty) {
        Err(ErasureError::Internal(msg)) => assert_eq!(
            msg,
            "reconstruct failed: The first shard provided is of zero length"
        ),
        other => panic!("expected Internal, got {:?}", other),
    }
}

#[test]
fn refusals_name_their_numbers() {
    let codec = ErasureCodec::new(4, 2).unwrap();
    let five: Vec<Option<Vec<u8>>> = vec![None; 5];
    assert_eq!(
        codec.decode(&five).unwrap_err().to_text(),
        "invalid erasure params: expected 6 chunks, got 5"
    );
    let six: Vec<Option<Vec<u8>>> = vec![None; 6];
    assert_eq!(
        codec.decode(&six).unwrap_err().to_text(),
        "insufficient shards: 0 available, 4 required"
    );
}
