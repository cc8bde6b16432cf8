use tacticalmesh::crdt::{Target, TargetBoard, TargetKind, TargetState, TargetUpdate};
use tacticalmesh::image_cache::ImageCache;
use tacticalmesh::image_codec::{decode_jpeg, encode_jpeg};
use tacticalmesh::messages::ImageShard;

// ── target board ──────────────────────────────────────────────────────────────

fn make_target(id: u16, state: TargetState, updated_at_ms: u64) -> Target {
    Target {
        id,
        kind: TargetKind::Vehicle,
        state,
        lat_bits: 0.0f32.to_bits(),
        lon_bits: 0.0f32.to_bits(),
        updated_at_ms,
        assigned_to: None,
    }
}

#[test]
fn two_detected_same_id_last_timestamp_wins() {
    let mut board = TargetBoard::new();
    board.merge(TargetUpdate { target: make_target(1, TargetState::Detected, 100) });
    board.merge(TargetUpdate { target: make_target(1, TargetState::Detected, 200) });

    let t = board.get(1).expect("target missing");
    assert_eq!(t.state, TargetState::Detected);
    assert_eq!(t.updated_at_ms, 200);
}

#[test]
fn destroyed_beats_late_engaged() {
    let mut board = TargetBoard::new();
    // DESTROYED arrives first
    board.merge(TargetUpdate { target: make_target(2, TargetState::Destroyed, 500) });
    // ENGAGED arrives late (lower state, higher timestamp shouldn't matter)
    board.merge(TargetUpdate { target: make_target(2, TargetState::Engaged, 600) });

    let t = board.get(2).expect("target missing");
    assert_eq!(t.state, TargetState::Destroyed);
}

#[test]
fn aborted_beats_late_assigned() {
    let mut board = TargetBoard::new();
    board.merge(TargetUpdate { target: make_target(3, TargetState::Aborted, 300) });
    board.merge(TargetUpdate { target: make_target(3, TargetState::Assigned, 400) });

    let t = board.get(3).expect("target missing");
    assert_eq!(t.state, TargetState::Aborted);
}

#[test]
fn comms_blackout_scenario() {
    // Node sees DETECTED, misses ENGAGED update, gets DESTROYED later
    let mut board = TargetBoard::new();
    board.merge(TargetUpdate { target: make_target(4, TargetState::Detected, 100) });
    // ENGAGED is missed (never merged)
    board.merge(TargetUpdate { target: make_target(4, TargetState::Destroyed, 800) });

    let t = board.get(4).expect("target missing");
    assert_eq!(t.state, TargetState::Destroyed);
}

#[test]
fn merge_is_idempotent() {
    let mut board = TargetBoard::new();
    let update = TargetUpdate { target: make_target(5, TargetState::Engaged, 500) };
    board.merge(update.clone());
    board.merge(update.clone());
    board.merge(update);

    let t = board.get(5).expect("target missing");
    assert_eq!(t.state, TargetState::Engaged);
    assert_eq!(t.updated_at_ms, 500);
    assert_eq!(board.targets().len(), 1);
}

// ── image cache ───────────────────────────────────────────────────────────────

fn make_shard(target_id: u16, block_id: u8, index: u8, k: u8, n: u8) -> ImageShard {
    ImageShard { target_id, total_blocks: 0, block_id, index, k, n, data: vec![index; 16] }
}

#[test]
fn eight_shards_completes_image() {
    let mut cache = ImageCache::new();
    let target_id = 10u16;
    for i in 0..8u8 {
        cache.insert_shard(make_shard(target_id, 0, i, 8, 12));
    }
    let result = cache.get_complete(target_id);
    assert!(result.is_some(), "expected image to be complete after k shards");
    assert_eq!(result.unwrap().len(), 8 * 16);
}

#[test]
fn seven_shards_does_not_complete_image() {
    let mut cache = ImageCache::new();
    let target_id = 20u16;
    for i in 0..7u8 {
        cache.insert_shard(make_shard(target_id, 0, i, 8, 12));
    }
    assert!(cache.get_complete(target_id).is_none());
}

#[test]
fn has_shard_reflects_insertion() {
    let mut cache = ImageCache::new();
    let target_id = 30u16;
    assert!(!cache.has_shard(target_id, 0));
    cache.insert_shard(make_shard(target_id, 0, 0, 8, 12));
    assert!(cache.has_shard(target_id, 0));
    assert!(!cache.has_shard(target_id, 1));
}

#[test]
fn shards_concatenated_in_index_order() {
    let mut cache = ImageCache::new();
    let target_id = 40u16;
    for i in [3u8, 0, 2, 1, 5, 4, 7, 6].iter().copied() {
        cache.insert_shard(make_shard(target_id, 0, i, 8, 12));
    }
    let result = cache.get_complete(target_id).expect("should be complete");
    for i in 0u8..8 {
        let offset = i as usize * 16;
        assert!(result[offset..offset + 16].iter().all(|&b| b == i));
    }
}

#[test]
fn duplicate_shard_indices_not_double_counted() {
    let mut cache = ImageCache::new();
    let target_id = 50u16;
    cache.insert_shard(make_shard(target_id, 0, 0, 8, 12));
    cache.insert_shard(make_shard(target_id, 0, 0, 8, 12));
    assert!(cache.get_complete(target_id).is_none());
}

#[test]
fn multi_block_requires_all_blocks() {
    let mut cache = ImageCache::new();
    let target_id = 60u16;
    // 3-block image, k=1 n=1 per block
    for bid in 0u8..3 {
        let mut shard = make_shard(target_id, bid, 0, 1, 1);
        shard.total_blocks = 3;
        shard.data = vec![bid; 8];
        cache.insert_shard(shard);
    }
    let result = cache.get_complete(target_id).expect("all blocks present");
    assert_eq!(result.len(), 3 * 8);
    assert!(result[0..8].iter().all(|&b| b == 0));
    assert!(result[8..16].iter().all(|&b| b == 1));
    assert!(result[16..24].iter().all(|&b| b == 2));
}

#[test]
fn multi_block_incomplete_without_all_blocks() {
    let mut cache = ImageCache::new();
    let target_id = 70u16;
    // Only 2 of 3 blocks
    for bid in 0u8..2 {
        let mut shard = make_shard(target_id, bid, 0, 1, 1);
        shard.total_blocks = 3;
        cache.insert_shard(shard);
    }
    assert!(cache.get_complete(target_id).is_none());
}

// ── JPEG codec ────────────────────────────────────────────────────────────────

fn checkerboard(w: u32, h: u32) -> Vec<u8> {
    (0..h).flat_map(|y| (0..w).map(move |x| if (x + y) % 2 == 0 { 255u8 } else { 0u8 })).collect()
}

#[test]
fn encode_produces_smaller_output() {
    let raw = checkerboard(640, 480);
    let jpeg = encode_jpeg(&raw, 640, 480, 75).expect("encode failed");
    assert!(jpeg.len() < raw.len(), "JPEG ({} B) should be smaller than raw ({} B)", jpeg.len(), raw.len());
}

#[test]
fn roundtrip_preserves_dimensions() {
    let raw = checkerboard(320, 240);
    let jpeg = encode_jpeg(&raw, 320, 240, 85).expect("encode failed");
    let (_, w, h) = decode_jpeg(&jpeg).expect("decode failed");
    assert_eq!((w, h), (320, 240));
}

#[test]
fn roundtrip_pixel_values_approximately_correct() {
    // Use a flat grey image so JPEG loss doesn't matter.
    let raw = vec![128u8; 64 * 64];
    let jpeg = encode_jpeg(&raw, 64, 64, 95).expect("encode failed");
    let (pixels, w, h) = decode_jpeg(&jpeg).expect("decode failed");
    assert_eq!((w, h), (64, 64));
    for &p in &pixels {
        assert!((p as i16 - 128).abs() <= 10, "pixel {p} too far from 128");
    }
}

#[test]
fn decode_garbage_returns_none() {
    assert!(decode_jpeg(b"not a jpeg").is_none());
    assert!(decode_jpeg(&[]).is_none());
}

#[test]
fn encode_wrong_size_returns_none() {
    // 10 bytes cannot be a 640×480 image.
    assert!(encode_jpeg(&[0u8; 10], 640, 480, 75).is_none());
}

/// Simulates the full shard pipeline: encode → chunk → reassemble → decode.
#[test]
fn shard_pipeline_roundtrip() {
    const W: u32 = 64;
    const H: u32 = 64;
    let raw = checkerboard(W, H);

    let jpeg = encode_jpeg(&raw, W, H, 85).expect("encode");
    assert!(!jpeg.is_empty());

    const SHARD_SIZE: usize = 200;
    let chunks: Vec<Vec<u8>> = jpeg.chunks(SHARD_SIZE).map(|c| c.to_vec()).collect();
    let total_blocks = chunks.len() as u8;

    let mut cache = ImageCache::new();
    let target_id = 42u16;

    for (block_id, data) in chunks.iter().enumerate() {
        let completed = cache.insert_shard(ImageShard {
            target_id,
            total_blocks,
            block_id: block_id as u8,
            index: 0,
            k: 1,
            n: 1,
            data: data.clone(),
        });
        if block_id as u8 + 1 < total_blocks {
            assert!(!completed, "should not complete before last shard");
        }
    }

    let assembled = cache.get_complete(target_id).expect("cache should be complete");
    let (pixels, w, h) = decode_jpeg(assembled).expect("decode assembled JPEG");
    assert_eq!((w, h), (W, H));
    assert_eq!(pixels.len(), (W * H) as usize);
}

#[test]
fn default_containers_are_empty() {
    assert!(TargetBoard::default().targets().is_empty());
    let cache = ImageCache::default();
    assert!(cache.get_complete(1).is_none());
    assert!(!cache.has_shard(1, 0));
}
