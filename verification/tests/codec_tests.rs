//! Codec and chunking behaviour: round trips, erasure tolerance, padding.

use rs_guard::codec::RSEncoder;
use rs_guard::chunking::{join, split};
use rs_guard::GuardError;

fn sample_data(len: usize) -> Vec<u8> {
    (0..len).map(|i| (i % 251) as u8).collect()
}

#[test]
fn encode_shape_is_n_plus_m_equal_sized() {
    let enc = RSEncoder::new(4, 2).unwrap();
    let data = sample_data(1000);
    let shards = enc.encode(&data).unwrap();
    assert_eq!(shards.len(), 6);
    for s in &shards {
        assert_eq!(s.len(), 250);
    }
}

#[test]
fn encode_rejects_bad_config() {
    assert!(matches!(RSEncoder::new(0, 2), Err(GuardError::Config)));
    assert!(matches!(RSEncoder::new(4, 0), Err(GuardError::Config)));
    assert!(matches!(RSEncoder::new(200, 200), Err(GuardError::Config)));
    assert!(RSEncoder::new(1, 255).is_ok());
}

#[test]
fn round_trip_all_shards_present() {
    let enc = RSEncoder::new(4, 2).unwrap();
    let data = sample_data(1003);
    let shards = enc.encode(&data).unwrap();
    let mut slots: Vec<Option<Vec<u8>>> = shards.into_iter().map(Some).collect();
    let out = enc.recover_chunk(&mut slots, 1003).unwrap();
    assert_eq!(out, data);
}

#[test]
fn round_trip_with_up_to_m_erasures() {
    let enc = RSEncoder::new(4, 2).unwrap();
    let data = sample_data(4096);
    let shards = enc.encode(&data).unwrap();
    // every pair of erased indices among the six shards
    for a in 0..6usize {
        for b in 0..6usize {
            if a == b {
                continue;
            }
            let mut slots: Vec<Option<Vec<u8>>> =
                shards.iter().map(|s| Some(s.clone())).collect();
            slots[a] = None;
            slots[b] = None;
            let out = enc.recover_chunk(&mut slots, 4096).unwrap();
            assert_eq!(out, data, "erasing shards {} and {} must still recover", a, b);
            // recover_chunk also rebuilt the erased shards in place
            assert_eq!(slots[a].as_ref().unwrap(), &shards[a]);
            assert_eq!(slots[b].as_ref().unwrap(), &shards[b]);
        }
    }
}

#[test]
fn more_than_m_erasures_is_insufficient() {
    let enc = RSEncoder::new(4, 2).unwrap();
    let data = sample_data(4096);
    let shards = enc.encode(&data).unwrap();
    let mut slots: Vec<Option<Vec<u8>>> = shards.into_iter().map(Some).collect();
    slots[0] = None;
    slots[2] = None;
    slots[5] = None;
    let r = enc.recover_chunk(&mut slots, 4096);
    assert!(matches!(r, Err(GuardError::InsufficientShards)));
    // nothing rebuilt
    assert!(slots[0].is_none());
}

#[test]
fn zero_length_chunk_is_protected() {
    let enc = RSEncoder::new(4, 2).unwrap();
    let data: Vec<u8> = Vec::new();
    let shards = enc.encode(&data).unwrap();
    assert_eq!(shards.len(), 6);
    for s in &shards {
        assert_eq!(s.len(), 1, "a zero-length chunk still gets one padding byte per shard");
    }
    let mut slots: Vec<Option<Vec<u8>>> = shards.into_iter().map(Some).collect();
    slots[1] = None;
    let out = enc.recover_chunk(&mut slots, 0).unwrap();
    assert!(out.is_empty());
}

#[test]
fn mismatched_shard_sizes_are_rejected() {
    let enc = RSEncoder::new(2, 1).unwrap();
    let mut slots: Vec<Option<Vec<u8>>> = vec![Some(vec![1, 2]), Some(vec![3]), None];
    let r = enc.recover_chunk(&mut slots, 3);
    assert!(matches!(r, Err(GuardError::ShardSizeMismatch)));
}

#[test]
fn parity_is_not_a_copy_of_the_data() {
    // if the encoder handed its input back unchanged, parity would be the
    // zero padding it was given, and recovery from parity alone would fail
    let enc = RSEncoder::new(2, 2).unwrap();
    let data = vec![7u8, 21, 99, 3];
    let shards = enc.encode(&data).unwrap();
    assert!(shards[2] != vec![0u8, 0] || shards[3] != vec![0u8, 0]);
    let mut slots: Vec<Option<Vec<u8>>> = vec![
        None,
        None,
        Some(shards[2].clone()),
        Some(shards[3].clone()),
    ];
    let out = enc.recover_chunk(&mut slots, 4).unwrap();
    assert_eq!(out, data);
}

#[test]
fn split_makes_layout_order_chunks() {
    let data = sample_data(2500);
    let chunks = split(&data, 1024);
    assert_eq!(chunks.len(), 3);
    assert_eq!(chunks[0].len(), 1024);
    assert_eq!(chunks[1].len(), 1024);
    assert_eq!(chunks[2].len(), 452);
    assert_eq!(join(&chunks), data);
}

#[test]
fn split_exact_multiple_has_no_short_chunk() {
    let data = sample_data(2048);
    let chunks = split(&data, 1024);
    assert_eq!(chunks.len(), 2);
    assert_eq!(chunks[0].len(), 1024);
    assert_eq!(chunks[1].len(), 1024);
    assert_eq!(join(&chunks), data);
}

#[test]
fn split_empty_file_is_one_empty_chunk() {
    let data: Vec<u8> = Vec::new();
    let chunks = split(&data, 1024);
    assert_eq!(chunks.len(), 1);
    assert!(chunks[0].is_empty());
    assert!(join(&chunks).is_empty());
}

#[test]
fn reconstruct_fills_missing_slots_in_place() {
    let enc = RSEncoder::new(4, 2).unwrap();
    let data = sample_data(333);
    let shards = enc.encode(&data).unwrap();
    let mut slots: Vec<Option<Vec<u8>>> = shards.iter().map(|s| Some(s.clone())).collect();
    slots[0] = None;
    slots[4] = None;
    enc.reconstruct(&mut slots).unwrap();
    for (i, slot) in slots.iter().enumerate() {
        assert_eq!(slot.as_ref().unwrap(), &shards[i]);
    }

    // too few present: rejected, nothing touched
    let mut slots: Vec<Option<Vec<u8>>> = shards.iter().map(|s| Some(s.clone())).collect();
    slots[0] = None;
    slots[1] = None;
    slots[2] = None;
    assert!(matches!(enc.reconstruct(&mut slots), Err(GuardError::InsufficientShards)));
    assert!(slots[0].is_none());

    // wrong slot count: rejected
    let mut slots: Vec<Option<Vec<u8>>> = shards.iter().map(|s| Some(s.clone())).collect();
    slots.pop();
    assert!(matches!(enc.reconstruct(&mut slots), Err(GuardError::ShardSizeMismatch)));
}
