use rs_shards::{rs_decode, rs_encode, CodecError};

/// Picks the shards with the given logical indices out of a shard-major
/// encoded buffer.
fn select(encoded: &[u8], shard_size: usize, picks: &[usize]) -> Vec<u8> {
    let mut out = Vec::new();
    for &s in picks {
        out.extend_from_slice(&encoded[s * shard_size..(s + 1) * shard_size]);
    }
    out
}

fn padded(payload: &[u8], k: usize) -> Vec<u8> {
    let mut p = payload.to_vec();
    let we = 2 * k;
    if p.len() % we != 0 {
        let pad = we - p.len() % we;
        p.extend(std::iter::repeat(0u8).take(pad));
    }
    p
}

#[test]
fn round_trip_all_data_shards() {
    let payload: Vec<u8> = (0u8..24).collect();
    let k = 3;
    let m = 2;
    let encoded = rs_encode(&payload, k, m).unwrap();
    let shard_size = encoded.len() / (k + m);
    assert_eq!(shard_size, 8);
    let picks = [0, 1, 2];
    let sel = select(&encoded, shard_size, &picks);
    let out = rs_decode(&sel, &picks, shard_size, k, m).unwrap();
    assert_eq!(out, padded(&payload, k));
}

#[test]
fn round_trip_parity_heavy_selection() {
    let payload: Vec<u8> = vec![9, 8, 7, 6, 5, 4, 3, 2, 1, 0, 42, 17];
    let k = 3;
    let m = 2;
    let encoded = rs_encode(&payload, k, m).unwrap();
    let shard_size = encoded.len() / (k + m);
    let picks = [1, 3, 4];
    let sel = select(&encoded, shard_size, &picks);
    let out = rs_decode(&sel, &picks, shard_size, k, m).unwrap();
    assert_eq!(out, padded(&payload, k));
}

#[test]
fn round_trip_unsorted_indices() {
    let payload: Vec<u8> = (100u8..150).collect();
    let k = 4;
    let m = 3;
    let encoded = rs_encode(&payload, k, m).unwrap();
    let shard_size = encoded.len() / (k + m);
    let picks = [6, 0, 5, 2];
    let sel = select(&encoded, shard_size, &picks);
    let out = rs_decode(&sel, &picks, shard_size, k, m).unwrap();
    assert_eq!(out, padded(&payload, k));
}

#[test]
fn erasure_tolerance_every_combination() {
    // k = 2, m = 2: every 2-of-4 selection reconstructs the payload.
    let payload: Vec<u8> = vec![0x11, 0x22, 0x33, 0x44, 0x55, 0x66, 0x77, 0x88];
    let k = 2;
    let m = 2;
    let encoded = rs_encode(&payload, k, m).unwrap();
    let shard_size = encoded.len() / (k + m);
    let expect = padded(&payload, k);
    for a in 0..k + m {
        for b in 0..k + m {
            if a == b {
                continue;
            }
            let picks = [a, b];
            let sel = select(&encoded, shard_size, &picks);
            let out = rs_decode(&sel, &picks, shard_size, k, m).unwrap();
            assert_eq!(out, expect, "selection {:?} must reconstruct", picks);
        }
    }
}

#[test]
fn insufficient_shards_fail() {
    let payload: Vec<u8> = (0u8..16).collect();
    let k = 3;
    let m = 2;
    let encoded = rs_encode(&payload, k, m).unwrap();
    let shard_size = encoded.len() / (k + m);
    for picks in [vec![4usize, 1], vec![0], vec![]] {
        let sel = select(&encoded, shard_size, &picks);
        let err = rs_decode(&sel, &picks, shard_size, k, m).unwrap_err();
        assert_eq!(err, CodecError::Compute);
        assert_eq!(err.code(), 3);
    }
}

#[test]
fn idempotent_encode() {
    let payload: Vec<u8> = (0u8..37).collect();
    let first = rs_encode(&payload, 5, 3).unwrap();
    let second = rs_encode(&payload, 5, 3).unwrap();
    assert_eq!(first, second);
}

#[test]
fn zero_length_payload() {
    // An empty payload needs no padding: zero chunks, empty output.
    let out = rs_encode(&[], 1, 1).unwrap();
    assert_eq!(out.len(), 0);
    let out = rs_encode(&[], 4, 7).unwrap();
    assert_eq!(out.len(), 0);
    // Decoding the empty output (shard size 0) yields the empty payload.
    let picks = [0usize];
    let out = rs_decode(&[], &picks, 0, 1, 1).unwrap();
    assert_eq!(out.len(), 0);
}

#[test]
fn odd_shard_size_rejected() {
    let shards = [1u8, 2, 3, 4, 5, 6];
    let picks = [0usize, 1];
    let err = rs_decode(&shards, &picks, 3, 2, 1).unwrap_err();
    assert_eq!(err, CodecError::OddShardSize);
    assert_eq!(err.code(), 97);
    // Regardless of the other inputs.
    let err = rs_decode(&shards[0..3], &picks[0..1], 3, 0, 0).unwrap_err();
    assert_eq!(err.code(), 97);
}

#[test]
fn concrete_two_data_one_parity() {
    // Two words, one per data shard, a single chunk.
    let payload = [0x01u8, 0x00, 0x02, 0x00];
    let k = 2;
    let m = 1;
    let encoded = rs_encode(&payload, k, m).unwrap();
    assert_eq!(encoded.len(), 6);
    assert_eq!(&encoded[0..2], &[0x01, 0x00]);
    assert_eq!(&encoded[2..4], &[0x02, 0x00]);
    // Data shard 0 is lost: the engine must recover word 1 from shard 1 and
    // the parity shard.
    let picks = [1usize, 2];
    let sel = select(&encoded, 2, &picks);
    let out = rs_decode(&sel, &picks, 2, k, m).unwrap();
    assert_eq!(out, payload);
}

#[test]
fn recovery_through_parity_only() {
    // A single data shard reconstructed from its parity shard alone: fails
    // if parity were not really derived from the data.
    let payload = [0x34u8, 0x12];
    let encoded = rs_encode(&payload, 1, 1).unwrap();
    let picks = [1usize];
    let sel = select(&encoded, 2, &picks);
    let out = rs_decode(&sel, &picks, 2, 1, 1).unwrap();
    assert_eq!(out, payload);
}

#[test]
fn payload_is_padded_with_zeroes() {
    let payload = [0xAAu8, 0xBB, 0xCC];
    let encoded = rs_encode(&payload, 1, 1).unwrap();
    let shard_size = encoded.len() / 2;
    assert_eq!(shard_size, 4);
    assert_eq!(&encoded[0..4], &[0xAA, 0xBB, 0xCC, 0x00]);
    let picks = [0usize];
    let out = rs_decode(&encoded[0..4], &picks, 4, 1, 1).unwrap();
    assert_eq!(out, vec![0xAA, 0xBB, 0xCC, 0x00]);
}

#[test]
fn unsupported_counts_rejected() {
    // The engine supports no configuration without a parity shard.
    let err = rs_encode(&[1, 2], 1, 0).unwrap_err();
    assert_eq!(err, CodecError::Construct);
    assert_eq!(err.code(), 1);
    // Nor one whose counts exceed the field order.
    let err = rs_encode(&[1, 2], 1, 65536).unwrap_err();
    assert_eq!(err.code(), 1);
    // Decode checks the same configuration.
    let err = rs_decode(&[1, 2], &[0], 2, 1, 0).unwrap_err();
    assert_eq!(err, CodecError::Construct);
}

#[test]
fn duplicate_index_rejected() {
    let payload = [1u8, 0, 2, 0];
    let encoded = rs_encode(&payload, 2, 1).unwrap();
    let picks = [1usize, 1];
    let sel = select(&encoded, 2, &picks);
    let err = rs_decode(&sel, &picks, 2, 2, 1).unwrap_err();
    assert_eq!(err, CodecError::Ingest);
    assert_eq!(err.code(), 2);
}

#[test]
fn out_of_range_index_rejected() {
    let payload = [1u8, 0, 2, 0];
    let encoded = rs_encode(&payload, 2, 1).unwrap();
    let picks = [0usize, 3];
    let sel = select(&encoded, 2, &[0, 2]);
    let err = rs_decode(&sel, &picks, 2, 2, 1).unwrap_err();
    assert_eq!(err, CodecError::Ingest);
}

#[test]
fn wild_index_rejected() {
    // A low-rate configuration (more parity than data shards) with an
    // absurdly large logical index: rejected as an ingest error, with no
    // arithmetic overflow on the way to the engine.
    let payload: Vec<u8> = (0u8..6).collect();
    let k = 3;
    let m = 5;
    let encoded = rs_encode(&payload, k, m).unwrap();
    let shard_size = encoded.len() / (k + m);
    let picks = [0usize, 1, usize::MAX];
    let sel = select(&encoded, shard_size, &[0, 1, 2]);
    let err = rs_decode(&sel, &picks, shard_size, k, m).unwrap_err();
    assert_eq!(err, CodecError::Ingest);
    assert_eq!(err.code(), 2);
}

#[test]
fn error_codes_are_stable() {
    assert_eq!(CodecError::Construct.code(), 1);
    assert_eq!(CodecError::Ingest.code(), 2);
    assert_eq!(CodecError::Compute.code(), 3);
    assert_eq!(CodecError::Unresolved.code(), 5);
    assert_eq!(CodecError::WordLength.code(), 6);
    assert_eq!(CodecError::OddShardSize.code(), 97);
}

#[test]
fn large_round_trip_many_chunks() {
    let payload: Vec<u8> = (0..1000).map(|i| (i * 7 % 251) as u8).collect();
    let k = 4;
    let m = 2;
    let encoded = rs_encode(&payload, k, m).unwrap();
    let shard_size = encoded.len() / (k + m);
    let picks = [5, 1, 2, 4];
    let sel = select(&encoded, shard_size, &picks);
    let out = rs_decode(&sel, &picks, shard_size, k, m).unwrap();
    assert_eq!(out, padded(&payload, k));
}
