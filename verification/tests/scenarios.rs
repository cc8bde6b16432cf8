use tacticalmesh::crdt::{Target, TargetBoard, TargetKind, TargetState, TargetUpdate};
use tacticalmesh::crypto::verify_auth;
use tacticalmesh::errors::FrameError;
use tacticalmesh::frame::{build_frame, parse_and_verify_frame, TacticalMessage, MIN_FRAME_LEN};
use tacticalmesh::headers::AuthHeader;
use tacticalmesh::identity::{Identity, PubkeyStore};
use tacticalmesh::image_codec::encode_jpeg;
use tacticalmesh::messages::CommandOp;
use tacticalmesh::node::{assign_command, decode_image_or_raw, relay_frame, RAW_FALLBACK_HEIGHT, RAW_FALLBACK_WIDTH};
use tacticalmesh::nonce_cache::NonceCache;
use tacticalmesh::olsr::{link_cost, LinkQuality, OlsrState, Tc};
use tacticalmesh::priority::{MsgKind, Priority, BROADCAST};

fn unix_now_ms() -> u64 {
    std::time::SystemTime::now().duration_since(std::time::UNIX_EPOCH).unwrap_or_default().as_millis() as u64
}

#[test]
fn link_cost_at_weakest_signal() {
    let q = LinkQuality { rssi_dbm: -128, loss_rate_x100: 0, mcs: 0 };
    assert_eq!(link_cost(&q), 100 + (128 - 30) * 2);
    let q = LinkQuality { rssi_dbm: -128, loss_rate_x100: 100, mcs: 0 };
    assert_eq!(link_cost(&q), 100 + 1000 + 196);
}

#[test]
fn tc_just_behind_across_wraparound_is_duplicate() {
    let mut s = OlsrState::new(1);
    s.last_tc_seq.insert(2, 5);
    let tc = Tc { sender: 2, seq: 65530, advertised_neighbors: vec![], sent_at_ms: 0 };
    assert!(!s.process_tc(&tc, 0));
    assert_eq!(s.last_tc_seq[&2], 5);
}

#[test]
fn first_tc_from_a_sender_is_new_even_with_seq_zero() {
    let mut s = OlsrState::new(1);
    let q = LinkQuality { rssi_dbm: -30, loss_rate_x100: 0, mcs: 0 };
    let tc = Tc { sender: 2, seq: 0, advertised_neighbors: vec![(3, q)], sent_at_ms: 0 };
    assert!(s.process_tc(&tc, 0));
    assert_eq!(s.last_tc_seq[&2], 0);
    assert_eq!(s.topology[&2][&3], q);
    assert!(!s.process_tc(&tc, 0));
}

#[test]
fn replay_rejected_at_the_end_of_the_window() {
    let mut c = NonceCache::new();
    let n = [0u8; 12];
    assert_eq!(c.check_and_insert(1, 30_000, &n, 0), Ok(()));
    assert_eq!(c.check_and_insert(2, 60_000, &n, 60_000), Ok(()));
    assert_eq!(c.check_and_insert(1, 30_000, &n, 60_000), Err(FrameError::ReplayedNonce));
}

fn target(lat: f32, assigned_to: Option<u8>) -> Target {
    Target {
        id: 7,
        kind: TargetKind::Vehicle,
        state: TargetState::Assigned,
        lat_bits: lat.to_bits(),
        lon_bits: 11.0f32.to_bits(),
        updated_at_ms: 500,
        assigned_to,
    }
}

#[test]
fn concurrent_equal_time_updates_merge_in_any_order() {
    let a = TargetUpdate { target: target(48.0, Some(2)) };
    let c = TargetUpdate { target: target(48.5, Some(3)) };
    let mut b1 = TargetBoard::new();
    let mut b2 = TargetBoard::new();
    b1.merge(a);
    b1.merge(c);
    b2.merge(c);
    b2.merge(a);
    assert_eq!(b1.get(7), b2.get(7));
    // Same position, different striker: still one outcome.
    let d = TargetUpdate { target: target(48.0, Some(4)) };
    let mut b3 = TargetBoard::new();
    let mut b4 = TargetBoard::new();
    b3.merge(a);
    b3.merge(d);
    b4.merge(d);
    b4.merge(a);
    assert_eq!(b3.get(7), b4.get(7));
    assert_eq!(b3.get(7).unwrap().assigned_to, Some(4));
}

#[test]
fn frame_layout_puts_signature_last() {
    let id = Identity::generate(3);
    let payload = b"coordinates".to_vec();
    let len = payload.len();
    let msg = TacticalMessage { kind: MsgKind::Data, payload };
    let f = build_frame(&msg, Priority::Critical, 9, &id);
    assert_eq!(f.len(), 4 + 44 + len + 64);
    assert_eq!(f.len(), MIN_FRAME_LEN + len);
    assert_eq!(&f[..4], &[3, 0, 0, 0]);
    let a = AuthHeader::from_bytes(&f[4..48]).unwrap();
    assert_eq!(a.src_node, 3);
    assert_eq!(a.dst_node, 9);
    assert_eq!(a.msg_kind, MsgKind::Data);
    assert_eq!(a.priority, Priority::Critical);
    let mut signed = f[4..48].to_vec();
    signed.extend_from_slice(&a.payload_hash);
    let sig: [u8; 64] = f[48 + len..].try_into().unwrap();
    assert_eq!(verify_auth(&signed, &sig, &id.verifying_key), Ok(()));
    // The ciphertext sits between the header and the signature.
    assert_ne!(&f[48..48 + len], &msg.payload[..]);
}

#[test]
fn relayed_frame_counts_a_hop_and_still_verifies() {
    let id = Identity::generate(1);
    let mut store = PubkeyStore::new();
    store.insert(1, id.verifying_key);
    let msg = TacticalMessage { kind: MsgKind::Data, payload: b"flood".to_vec() };
    let f = build_frame(&msg, Priority::High, BROADCAST, &id);
    let mut relay_cache = NonceCache::new();
    let parsed = parse_and_verify_frame(&f, &store, &mut relay_cache, unix_now_ms(), &id.session_key).unwrap();
    let relayed = relay_frame(&f, &parsed.routed, 2);
    assert_eq!(&relayed[..4], &[2, 1, 0, 0]);
    assert_eq!(&relayed[4..], &f[4..]);
    let mut far_cache = NonceCache::new();
    let far = parse_and_verify_frame(&relayed, &store, &mut far_cache, unix_now_ms(), &id.session_key).unwrap();
    assert_eq!(far.plaintext, msg.payload);
    assert_eq!(far.routed.hops_taken, 1);
    assert_eq!(far.routed.last_hop_id, 2);
    assert_eq!(far.auth.src_node, 1);
}

#[test]
fn undecodable_image_is_shown_raw() {
    let bytes = b"not a jpeg at all".to_vec();
    let (px, w, h) = decode_image_or_raw(bytes.clone());
    assert_eq!(px, bytes);
    assert_eq!((w, h), (RAW_FALLBACK_WIDTH, RAW_FALLBACK_HEIGHT));
    let jpeg = encode_jpeg(&vec![128u8; 32 * 16], 32, 16, 90).unwrap();
    let (px, w, h) = decode_image_or_raw(jpeg);
    assert_eq!((w, h), (32, 16));
    assert_eq!(px.len(), 32 * 16);
}

#[test]
fn striker_hotkey_reassigns_selected_target() {
    let mut board = TargetBoard::new();
    let cmd = assign_command(&board, 4);
    assert_eq!(cmd.target_id, 100);
    assert_eq!(cmd.op, CommandOp::Reassign);
    assert_eq!(cmd.issued_by, 4);
    for id in [300u16, 120, 250] {
        let mut t = target(1.0, None);
        t.id = id;
        board.merge(TargetUpdate { target: t });
    }
    let cmd = assign_command(&board, 9);
    assert_eq!(cmd.target_id, 120);
    assert_eq!(cmd.issued_by, 9);
}
