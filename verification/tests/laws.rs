use std::collections::HashMap;

use tacticalmesh::crdt::{Target, TargetBoard, TargetKind, TargetState, TargetUpdate};
use tacticalmesh::errors::FrameError;
use tacticalmesh::fec::{fec_decode, fec_encode, fec_params};
use tacticalmesh::frame::{build_frame, build_frames, parse_and_verify_frame, TacticalMessage};
use tacticalmesh::identity::{Identity, PubkeyStore};
use tacticalmesh::image_cache::ImageCache;
use tacticalmesh::image_codec::{image_shards, SHARD_SIZE};
use tacticalmesh::jam::JamWindow;
use tacticalmesh::link::{accept_rx_frame, decode_udp_datagram, encode_udp_datagram, stream_port};
use tacticalmesh::messages::{Bda, BdaResult, Command, CommandOp, ImageShard, JamAlert, RequestImage};
use tacticalmesh::node::{
    bda_update, command_update, drop_counter, image_reply, key_action, outbound_addressing, plan_channel_hop,
    receive_image_shard, route_decision, Addressing, DropCounter, KeyAction, ShardOutcome, TuiEvent,
};
use tacticalmesh::nonce_cache::NonceCache;
use tacticalmesh::olsr::{link_cost, LinkQuality, NeighborEntry, OlsrState, Tc};
use tacticalmesh::priority::{MsgKind, Priority, BROADCAST};
use tacticalmesh::render::pixels_to_block_chars;
use tacticalmesh::scheduler::Queues;

fn lq(mcs: u8, rssi_dbm: i8, loss: u8) -> LinkQuality {
    LinkQuality { mcs, rssi_dbm, loss_rate_x100: loss }
}

fn target(id: u16, state: TargetState, ts: u64, lat: f32) -> Target {
    Target {
        id,
        kind: TargetKind::Vehicle,
        state,
        lat_bits: lat.to_bits(),
        lon_bits: 0.0f32.to_bits(),
        updated_at_ms: ts,
        assigned_to: None,
    }
}

// ── FEC ───────────────────────────────────────────────────────────────────────

#[test]
fn fec_recovers_from_any_four_losses() {
    let data: Vec<u8> = (0..4000).map(|i| (i * 7 % 251) as u8).collect();
    let shards = fec_encode(&data, Priority::Bulk).unwrap();
    let (k, n) = fec_params(Priority::Bulk);
    // Lose four data shards: recovery must come from the parity shards.
    let wrapped: Vec<Option<Vec<u8>>> =
        shards.iter().enumerate().map(|(i, s)| if i < 4 { None } else { Some(s.clone()) }).collect();
    assert_eq!(fec_decode(&wrapped, k, n, data.len()).unwrap(), data);
}

#[test]
fn fec_decode_without_shards_fails() {
    let none: Vec<Option<Vec<u8>>> = vec![None; 12];
    assert!(matches!(fec_decode(&none, 8, 12, 100), Err(FrameError::FecError(_))));
}

#[test]
fn fec_encode_odd_shard_size_fails() {
    // 1025 bytes in one data shard: Reed-Solomon needs an even shard size.
    let data = vec![1u8; 1025];
    assert!(matches!(fec_encode(&data, Priority::Emergency), Err(FrameError::FecError(_))));
}

#[test]
fn fec_shard_layout() {
    // With one data shard every recovery shard repeats it.
    let data: Vec<u8> = (0..64).map(|i| i as u8).collect();
    let shards = fec_encode(&data, Priority::Emergency).unwrap();
    assert_eq!(shards.len(), 4);
    assert_eq!(shards[0], data);
    // With eight data shards the data is cut in order and padded, and the
    // recovery shards are new.
    let bulk = fec_encode(&data[..60], Priority::Bulk).unwrap();
    assert_eq!(bulk.len(), 12);
    assert_eq!(bulk[0], data[0..8].to_vec());
    assert_eq!(bulk[7], vec![56, 57, 58, 59, 0, 0, 0, 0]);
    assert!(bulk[8..].iter().all(|r| r.len() == 8 && !bulk[..8].contains(r)));
}

// ── frames ────────────────────────────────────────────────────────────────────

#[test]
fn shard_frames_parse_and_reassemble() {
    let id = Identity::generate(1);
    let mut store = PubkeyStore::new();
    store.insert(1, id.verifying_key);
    let mut cache = NonceCache::new();
    let payload: Vec<u8> = (0..2048).map(|i| (i % 253) as u8).collect();
    let msg = TacticalMessage { kind: MsgKind::Data, payload: payload.clone() };
    let frames = build_frames(&msg, Priority::Bulk, BROADCAST, &id).unwrap();
    let (k, n) = fec_params(Priority::Bulk);
    assert_eq!(frames.len(), n);
    let now = unix_now_ms();
    let mut shards: Vec<Option<Vec<u8>>> = Vec::new();
    for (i, f) in frames.iter().enumerate() {
        let p = parse_and_verify_frame(f, &store, &mut cache, now, &id.session_key).unwrap();
        assert_eq!(p.auth.fec_index as usize, i);
        assert_eq!(p.auth.fec_k as usize, k);
        assert_eq!(p.auth.fec_n as usize, n);
        // Lose shards 1, 4, 7 and 10: four losses, as many as the parity allows.
        shards.push(if i % 3 == 1 { None } else { Some(p.plaintext) });
    }
    assert_eq!(fec_decode(&shards, k, n, payload.len()).unwrap(), payload);
}

#[test]
fn small_message_is_one_frame() {
    let id = Identity::generate(3);
    let msg = TacticalMessage { kind: MsgKind::Data, payload: vec![9; 100] };
    assert_eq!(build_frames(&msg, Priority::Critical, 2, &id).unwrap().len(), 1);
}

#[test]
fn wrong_session_key_decrypt_failed() {
    let id = Identity::generate(1);
    let mut store = PubkeyStore::new();
    store.insert(1, id.verifying_key);
    let mut cache = NonceCache::new();
    let msg = TacticalMessage { kind: MsgKind::Data, payload: b"secret".to_vec() };
    let frame = build_frame(&msg, Priority::High, BROADCAST, &id);
    let mut other = id.session_key;
    other[0] ^= 1;
    assert_eq!(
        parse_and_verify_frame(&frame, &store, &mut cache, unix_now_ms(), &other).unwrap_err(),
        FrameError::DecryptFailed
    );
}

#[test]
fn unknown_sender_bad_signature() {
    let id = Identity::generate(9);
    let store = PubkeyStore::new();
    let mut cache = NonceCache::new();
    let msg = TacticalMessage { kind: MsgKind::Data, payload: b"spoof".to_vec() };
    let frame = build_frame(&msg, Priority::Critical, BROADCAST, &id);
    assert_eq!(
        parse_and_verify_frame(&frame, &store, &mut cache, unix_now_ms(), &id.session_key).unwrap_err(),
        FrameError::BadSignature
    );
}

#[test]
fn far_clock_time_window_expired() {
    let id = Identity::generate(1);
    let mut store = PubkeyStore::new();
    store.insert(1, id.verifying_key);
    let mut cache = NonceCache::new();
    let msg = TacticalMessage { kind: MsgKind::Data, payload: b"late".to_vec() };
    let frame = build_frame(&msg, Priority::High, BROADCAST, &id);
    assert_eq!(
        parse_and_verify_frame(&frame, &store, &mut cache, unix_now_ms() + 60_000, &id.session_key).unwrap_err(),
        FrameError::TimeWindowExpired
    );
}

#[test]
fn seeded_identities_are_deterministic() {
    let psk = [7u8; 32];
    let a = Identity::from_seed(2, &psk);
    let b = Identity::from_seed(2, &psk);
    let c = Identity::from_seed(3, &psk);
    assert_eq!(a.verifying_key, b.verifying_key);
    assert_ne!(a.verifying_key, c.verifying_key);
    assert_eq!(a.session_key, psk);
}

#[test]
fn generated_identities_differ() {
    let a = Identity::generate(1);
    let b = Identity::generate(1);
    assert_ne!(a.signing_key, b.signing_key);
    assert_ne!(a.session_key, b.session_key);
    assert_ne!(a.signing_key, a.session_key);
}

// ── routing ───────────────────────────────────────────────────────────────────

fn chain_state(len: u8) -> OlsrState {
    // local 1 -> 2 -> 3 -> ... -> len+1
    let mut state = OlsrState::new(1);
    state.neighbors.insert(2, NeighborEntry { node_id: 2, link_quality: lq(0, -30, 0), last_hello_ms: 0, last_seen_neighbors: vec![] });
    for u in 2..=len {
        let mut m = HashMap::new();
        m.insert(u + 1, lq(0, -30, 0));
        state.topology.insert(u, m);
    }
    state
}

#[test]
fn long_route_counts_every_hop() {
    let mut state = chain_state(11); // path 1..12: 11 links to node 12
    state.recompute_routes();
    let r = state.routes.get(&12).unwrap();
    assert_eq!(r.cost, 1100);
    assert_eq!(r.hop_count, 11);
    assert_eq!(r.next_hop, 2);
    let r9 = state.routes.get(&9).unwrap();
    assert_eq!(r9.hop_count, 8);
    assert_eq!(r9.next_hop, 2);
}

#[test]
fn unreachable_nodes_have_no_route() {
    let mut state = OlsrState::new(1);
    let mut m = HashMap::new();
    m.insert(6, lq(0, -30, 0));
    state.topology.insert(5, m);
    state.recompute_routes();
    assert!(state.routes.is_empty());
}

#[test]
fn link_cost_extremes() {
    assert_eq!(link_cost(&lq(9, -30, 0)), 50);
    assert_eq!(link_cost(&lq(0, -127, 255)), 100 + 2550 + 194);
    assert_eq!(link_cost(&lq(0, -128, 255)), 100 + 2550 + 196);
}

#[test]
fn tc_replayed_after_processing_is_duplicate() {
    let mut state = OlsrState::new(1);
    let tc = Tc { sender: 4, seq: 77, advertised_neighbors: vec![(1, lq(0, -30, 0)), (5, lq(1, -40, 2))], sent_at_ms: 0 };
    assert!(state.process_tc(&tc, 0));
    assert!(!state.process_tc(&tc, 0));
    // The local node is left out of the advertised set.
    assert_eq!(state.topology.get(&4).unwrap().len(), 1);
}

#[test]
fn expire_keeps_fresh_neighbors() {
    let mut state = OlsrState::new(1);
    let now = 1_000_000u64;
    state.neighbors.insert(2, NeighborEntry { node_id: 2, link_quality: lq(0, -30, 0), last_hello_ms: now - 1000, last_seen_neighbors: vec![] });
    state.neighbors.insert(3, NeighborEntry { node_id: 3, link_quality: lq(0, -30, 0), last_hello_ms: now - 5000, last_seen_neighbors: vec![] });
    let dropped = state.expire_neighbors(now);
    assert_eq!(dropped, vec![3]);
    assert!(state.neighbors.contains_key(&2));
    assert_eq!(state.routes.get(&2).unwrap().next_hop, 2);
}

#[test]
fn outbound_addressing_cases() {
    let mut state = chain_state(3);
    state.recompute_routes();
    assert_eq!(outbound_addressing(&state, BROADCAST), Addressing::Broadcast);
    assert_eq!(outbound_addressing(&state, 4), Addressing::Via(2));
    assert_eq!(outbound_addressing(&state, 99), Addressing::NoRoute);
}

// ── target board ──────────────────────────────────────────────────────────────

#[test]
fn merge_order_does_not_matter() {
    let a = target(7, TargetState::Engaged, 10, 1.0);
    let b = target(7, TargetState::Assigned, 99, 2.0);
    let mut x = TargetBoard::new();
    x.merge(TargetUpdate { target: a });
    x.merge(TargetUpdate { target: b });
    let mut y = TargetBoard::new();
    y.merge(TargetUpdate { target: b });
    y.merge(TargetUpdate { target: a });
    assert_eq!(x.get(7), y.get(7));
    assert_eq!(x.get(7).unwrap().state, TargetState::Engaged);
}

#[test]
fn handlers_keep_known_position() {
    let mut board = TargetBoard::new();
    board.merge(TargetUpdate { target: target(3, TargetState::Detected, 1, 48.5) });
    let u = bda_update(&Bda { target_id: 3, result: BdaResult::Miss, at_ms: 50 }, &board);
    assert_eq!(u.target.state, TargetState::Engaged);
    assert_eq!(u.target.lat_bits, 48.5f32.to_bits());
    let c = command_update(&Command { target_id: 3, op: CommandOp::Reassign, issued_by: 6 }, &board, 70);
    assert_eq!(c.target.state, TargetState::Assigned);
    assert_eq!(c.target.assigned_to, Some(6));
    assert_eq!(c.target.updated_at_ms, 70);
    let unknown = bda_update(&Bda { target_id: 4, result: BdaResult::Destroyed, at_ms: 5 }, &board);
    assert_eq!(unknown.target.kind, TargetKind::Unknown);
    assert_eq!(unknown.target.state, TargetState::Destroyed);
}

// ── images ────────────────────────────────────────────────────────────────────

#[test]
fn image_shards_reassemble_in_cache() {
    let bytes: Vec<u8> = (0..3000).map(|i| (i % 199) as u8).collect();
    let shards = image_shards(42, &bytes);
    assert_eq!(shards.len(), 3);
    assert_eq!(shards[0].data.len(), SHARD_SIZE);
    assert_eq!(shards[2].total_blocks, 3);
    let mut cache = ImageCache::new();
    let mut last = false;
    for s in shards {
        last = cache.insert_shard(s);
    }
    assert!(last);
    assert_eq!(cache.get_complete(42).unwrap(), &bytes[..]);
    assert_eq!(cache.blocks_assembled(42), 3);
}

#[test]
fn receive_shard_reports_progress_then_completion() {
    let mut cache = ImageCache::new();
    let s0 = ImageShard { target_id: 8, total_blocks: 2, block_id: 0, index: 0, k: 1, n: 1, data: vec![1, 2] };
    let s1 = ImageShard { target_id: 8, total_blocks: 2, block_id: 1, index: 0, k: 1, n: 1, data: vec![3] };
    match receive_image_shard(&mut cache, s0) {
        ShardOutcome::Progress(p) => {
            assert_eq!(p.blocks_done, 1);
            assert_eq!(p.blocks_total, 2);
        },
        ShardOutcome::Completed(_) => panic!("completed too early"),
    }
    match receive_image_shard(&mut cache, s1) {
        ShardOutcome::Completed(img) => assert_eq!(img, vec![1, 2, 3]),
        ShardOutcome::Progress(_) => panic!("should be complete"),
    }
}

#[test]
fn image_reply_rules() {
    let req = RequestImage { target_id: 5, requester: 2 };
    assert!(image_reply(&req, 2, &Some((vec![0; 16], 4, 4))).is_none());
    assert!(image_reply(&req, 1, &None).is_none());
    assert!(image_reply(&req, 1, &Some((vec![0; 3], 4, 4))).is_none());
    let shards = image_reply(&req, 1, &Some((vec![128; 64 * 64], 64, 64))).unwrap();
    assert!(!shards.is_empty());
    assert!(shards.iter().all(|s| s.target_id == 5 && s.k == 1 && s.n == 1));
}

#[test]
fn block_art_shades() {
    // 2x1 image: black then white, rendered to 2 columns, 1 row.
    let art = pixels_to_block_chars(&[0, 255], 2, 1, 2, 1);
    assert_eq!(art, "\u{2588} \n");
    let grey = pixels_to_block_chars(&[128], 1, 1, 0, 0);
    assert_eq!(grey, "\u{2592}\n");
}

// ── link ──────────────────────────────────────────────────────────────────────

#[test]
fn udp_datagram_round_trip() {
    let pkt = encode_udp_datagram(0xA1B2C3D4, 7, b"frame");
    assert_eq!(pkt.len(), 13);
    assert_eq!(decode_udp_datagram(&pkt, 0xA1B2C3D4), Some((7, b"frame".to_vec())));
    assert_eq!(decode_udp_datagram(&pkt, 1), None);
    assert_eq!(decode_udp_datagram(&pkt[..7], 0xA1B2C3D4), None);
}

#[test]
fn reader_filters_own_and_disallowed_frames() {
    let frame = vec![0, 0, 0, 0, 5, 1];
    assert!(!accept_rx_frame(&frame, 5, &None));
    assert!(accept_rx_frame(&frame, 2, &None));
    assert!(accept_rx_frame(&frame, 2, &Some(vec![4, 5])));
    assert!(!accept_rx_frame(&frame, 2, &Some(vec![2])));
    assert!(accept_rx_frame(&[1, 2], 2, &Some(vec![])));
    assert_eq!(stream_port(Priority::Bulk), 42803);
}

#[test]
fn strict_priority_is_fifo_within_a_class() {
    let mut q = Queues::new();
    q.push(vec![1], Priority::Bulk);
    q.push(vec![2], Priority::Bulk);
    q.push(vec![3], Priority::Critical);
    assert_eq!(q.pop_next(), Some((vec![3], Priority::Critical)));
    assert_eq!(q.pop_next(), Some((vec![1], Priority::Bulk)));
    assert_eq!(q.pop_next(), Some((vec![2], Priority::Bulk)));
    assert_eq!(q.pop_next(), None);
}

// ── node decisions ────────────────────────────────────────────────────────────

#[test]
fn jam_window_detects_bulk_flood() {
    let mut w = JamWindow::new();
    for i in 0..151u64 {
        w.record(Priority::Bulk, 1000 + i);
    }
    assert!(w.is_jammed());
    w.record(Priority::High, 1200);
    assert!(!w.is_jammed());
    // Everything older than 500 ms falls out.
    w.record(Priority::Bulk, 5000);
    assert!(!w.is_jammed());
}

#[test]
fn jam_window_needs_more_than_threshold() {
    let mut w = JamWindow::new();
    for i in 0..150u64 {
        w.record(Priority::Bulk, 1000 + i);
    }
    assert!(!w.is_jammed());
    assert!(!JamWindow::new().is_jammed());
}

#[test]
fn rx_routing_rules() {
    let d = route_decision(BROADCAST, 1, 3);
    assert!(d.deliver_local && d.rebroadcast && !d.forward_unicast);
    let e = route_decision(BROADCAST, 1, 8);
    assert!(e.deliver_local && !e.rebroadcast);
    let f = route_decision(1, 1, 0);
    assert!(f.deliver_local && !f.rebroadcast && !f.forward_unicast);
    let g = route_decision(4, 1, 0);
    assert!(!g.deliver_local && g.forward_unicast);
}

#[test]
fn channel_hop_alternates() {
    let h = plan_channel_hop(&JamAlert { detected_by: 2, channel: 36, at_ms: 0 }, 4, 1);
    assert_eq!((h.new_channel, h.new_epoch, h.initiated_by), (40, 5, 1));
    let h2 = plan_channel_hop(&JamAlert { detected_by: 2, channel: 40, at_ms: 0 }, 0, 1);
    assert_eq!(h2.new_channel, 36);
}

#[test]
fn drop_counters() {
    assert_eq!(drop_counter(&FrameError::BadSignature), Some(DropCounter::BadSignature));
    assert_eq!(drop_counter(&FrameError::ReplayedNonce), Some(DropCounter::Replay));
    assert_eq!(drop_counter(&FrameError::TimeWindowExpired), Some(DropCounter::TimeWindow));
    assert_eq!(drop_counter(&FrameError::TruncatedFrame), None);
}

#[test]
fn key_bindings() {
    assert_eq!(key_action(TuiEvent::KeyPress('q')), KeyAction::Quit);
    assert_eq!(key_action(TuiEvent::Quit), KeyAction::Quit);
    assert_eq!(key_action(TuiEvent::KeyPress('7')), KeyAction::AssignToStriker(7));
    assert_eq!(key_action(TuiEvent::KeyPress('1')), KeyAction::AssignToStriker(1));
    assert_eq!(key_action(TuiEvent::KeyPress('9')), KeyAction::AssignToStriker(9));
    assert_eq!(key_action(TuiEvent::KeyPress('0')), KeyAction::Ignore);
    assert_eq!(key_action(TuiEvent::KeyPress('b')), KeyAction::ToggleBlackout);
}

fn unix_now_ms() -> u64 {
    std::time::SystemTime::now().duration_since(std::time::UNIX_EPOCH).unwrap_or_default().as_millis() as u64
}
