use tacticalmesh::crypto::{
    build_nonce, nonce24_from_stored, sign_auth, verify_auth, xchacha20_apply,
};
use tacticalmesh::errors::FrameError;
use tacticalmesh::fec::{fec_decode, fec_encode, fec_params};
use tacticalmesh::frame::{
    build_frame, build_frame_for_route, parse_and_verify_frame, TacticalMessage, MIN_FRAME_LEN,
};
use tacticalmesh::headers::{AuthHeader, RoutedHeader, AUTH_HEADER_LEN, ROUTED_HEADER_LEN};
use tacticalmesh::identity::{Identity, PubkeyStore};
use tacticalmesh::nonce_cache::{NonceCache, NONCE_CACHE_TTL_MS, TIME_WINDOW_MS};
use tacticalmesh::priority::{MsgKind, Priority, BROADCAST};

// ── crypto ────────────────────────────────────────────────────────────────────

#[test]
fn xchacha20_round_trip() {
    let key = [0xABu8; 32];
    let nonce24 = [0x12u8; 24];
    let original = b"hello tactical mesh".to_vec();
    let mut data = original.clone();
    xchacha20_apply(&key, &nonce24, &mut data);
    assert_ne!(data, original);
    xchacha20_apply(&key, &nonce24, &mut data);
    assert_eq!(data, original);
}

#[test]
fn sign_verify_ok() {
    let id = Identity::generate(1);
    let msg = b"auth header bytes";
    let sig = sign_auth(msg, &id);
    verify_auth(msg, &sig, &id.verifying_key).unwrap();
}

#[test]
fn tampered_byte_bad_signature() {
    let id = Identity::generate(1);
    let msg = b"auth header bytes";
    let sig = sign_auth(msg, &id);
    let tampered = b"auth header XXXXX";
    assert_eq!(verify_auth(tampered, &sig, &id.verifying_key), Err(FrameError::BadSignature));
}

#[test]
fn nonce_build_and_restore() {
    let (nonce24, stored) = build_nonce(42, 9_876_543_210);
    let restored = nonce24_from_stored(&stored);
    assert_eq!(nonce24[..12], restored[..12]);
    assert_eq!(&restored[12..], &[0u8; 12]);
}

// ── headers ───────────────────────────────────────────────────────────────────

fn sample_auth() -> AuthHeader {
    AuthHeader {
        src_node: 1,
        dst_node: 2,
        msg_kind: MsgKind::Data,
        priority: Priority::Emergency,
        timestamp_ms: 1_000_000,
        nonce: [0xAB; 12],
        payload_hash: [0xCD; 12],
        epoch: 7,
        payload_len: 128,
        fec_index: 0,
        fec_k: 1,
        fec_n: 4,
        fec_block_id: 0,
    }
}

#[test]
fn auth_header_round_trip() {
    let h = sample_auth();
    let bytes = h.to_bytes();
    assert_eq!(bytes.len(), AUTH_HEADER_LEN);
    let h2 = AuthHeader::from_bytes(&bytes).unwrap();
    assert_eq!(h, h2);
}

#[test]
fn routed_header_round_trip() {
    let r = RoutedHeader { last_hop_id: 5, hops_taken: 2, flags: 0x01, reserved: 0 };
    let bytes = r.to_bytes();
    assert_eq!(bytes.len(), ROUTED_HEADER_LEN);
    let r2 = RoutedHeader::from_bytes(&bytes).unwrap();
    assert_eq!(r, r2);
}

// ── nonce cache ───────────────────────────────────────────────────────────────

#[test]
fn rejects_replay() {
    let mut cache = NonceCache::new();
    let nonce = [0u8; 12];
    cache.check_and_insert(1, 1000, &nonce, 1000).unwrap();
    assert_eq!(cache.check_and_insert(1, 1000, &nonce, 1000), Err(FrameError::ReplayedNonce));
}

#[test]
fn rejects_stale_timestamp() {
    let mut cache = NonceCache::new();
    let nonce = [0u8; 12];
    let now = 100_000u64;
    let old = now - TIME_WINDOW_MS - 1;
    assert_eq!(cache.check_and_insert(1, old, &nonce, now), Err(FrameError::TimeWindowExpired));
}

#[test]
fn accepts_fresh_unique_nonce() {
    let mut cache = NonceCache::new();
    let nonce1 = [0u8; 12];
    let mut nonce2 = [0u8; 12];
    nonce2[0] = 1;
    let now = 50_000u64;
    cache.check_and_insert(1, now, &nonce1, now).unwrap();
    cache.check_and_insert(1, now, &nonce2, now).unwrap();
}

#[test]
fn evicts_old_entries() {
    let mut cache = NonceCache::new();
    let nonce = [0u8; 12];
    cache.check_and_insert(1, 0, &nonce, 0).unwrap();
    // After TTL passes the entry is gone; same nonce is accepted again.
    let later = NONCE_CACHE_TTL_MS + 1;
    cache.check_and_insert(1, later, &nonce, later).unwrap();
}

// ── message kinds ─────────────────────────────────────────────────────────────

#[test]
fn from_u8_round_trip() {
    for v in 0u8..5 {
        let k = MsgKind::from_u8(v).unwrap();
        assert_eq!(k as u8, v);
    }
    assert!(MsgKind::from_u8(5).is_none());
}

// ── FEC ───────────────────────────────────────────────────────────────────────

#[test]
fn p3_encode_and_full_decode() {
    let data: Vec<u8> = (0..2048).map(|i| i as u8).collect();
    let shards = fec_encode(&data, Priority::Bulk).unwrap();
    let (k, n) = fec_params(Priority::Bulk); // (8, 12)
    assert_eq!(shards.len(), n);

    let wrapped: Vec<Option<Vec<u8>>> = shards.into_iter().map(Some).collect();
    let decoded = fec_decode(&wrapped, k, n, data.len()).unwrap();
    assert_eq!(decoded, data);
}

#[test]
fn p3_corrupt_two_shards_reconstruct() {
    let data: Vec<u8> = (0..2048).map(|i| i as u8).collect();
    let shards = fec_encode(&data, Priority::Bulk).unwrap();
    let (k, n) = fec_params(Priority::Bulk); // (8, 12), 4 parity → can lose ≤4

    // Drop shards at index 3 and 9 (one data, one recovery)
    let wrapped: Vec<Option<Vec<u8>>> = shards
        .into_iter()
        .enumerate()
        .map(|(i, s)| if i == 3 || i == 9 { None } else { Some(s) })
        .collect();

    let decoded = fec_decode(&wrapped, k, n, data.len()).unwrap();
    assert_eq!(decoded, data);
}

#[test]
fn p0_encode_three_parity_shards() {
    let data: Vec<u8> = vec![0xDE; 2000];
    let shards = fec_encode(&data, Priority::Emergency).unwrap();
    let (k, n) = fec_params(Priority::Emergency); // (1, 4)
    assert_eq!(shards.len(), n);
    assert_eq!(k, 1);
}

// ── frames ────────────────────────────────────────────────────────────────────

fn make_env() -> (Identity, PubkeyStore, NonceCache) {
    let id = Identity::generate(1);
    let mut store = PubkeyStore::new();
    store.insert(1, id.verifying_key);
    let cache = NonceCache::new();
    (id, store, cache)
}

#[test]
fn build_and_parse_round_trip() {
    let (id, store, mut cache) = make_env();
    let msg = TacticalMessage { kind: MsgKind::Data, payload: b"hello mesh".to_vec() };
    let frame = build_frame(&msg, Priority::High, BROADCAST, &id);

    let parsed = parse_and_verify_frame(&frame, &store, &mut cache, unix_now_ms(), &id.session_key).unwrap();
    assert_eq!(parsed.plaintext, msg.payload);
    assert_eq!(parsed.auth.src_node, 1);
    assert_eq!(parsed.auth.dst_node, BROADCAST);
}

#[test]
fn tampered_frame_bad_signature() {
    let (id, store, mut cache) = make_env();
    let msg = TacticalMessage { kind: MsgKind::Data, payload: b"data".to_vec() };
    let mut frame = build_frame(&msg, Priority::High, BROADCAST, &id);

    // Flip a byte inside the auth header.
    frame[ROUTED_HEADER_LEN + 5] ^= 0xFF;

    assert_eq!(
        parse_and_verify_frame(&frame, &store, &mut cache, unix_now_ms(), &id.session_key).unwrap_err(),
        FrameError::BadSignature
    );
}

#[test]
fn replayed_frame_rejected() {
    let (id, store, mut cache) = make_env();
    let msg = TacticalMessage { kind: MsgKind::Data, payload: b"data".to_vec() };
    let frame = build_frame(&msg, Priority::High, BROADCAST, &id);

    let t = unix_now_ms();
    parse_and_verify_frame(&frame, &store, &mut cache, t, &id.session_key).unwrap();
    assert_eq!(
        parse_and_verify_frame(&frame, &store, &mut cache, t, &id.session_key).unwrap_err(),
        FrameError::ReplayedNonce
    );
}

#[test]
fn route_frame_sets_last_hop() {
    let (id, store, mut cache) = make_env();
    let msg = TacticalMessage { kind: MsgKind::OlsrHello, payload: vec![1, 2, 3] };
    let frame = build_frame_for_route(&msg, Priority::Critical, 7, &id, 3);
    let parsed = parse_and_verify_frame(&frame, &store, &mut cache, unix_now_ms(), &id.session_key).unwrap();
    assert_eq!(parsed.routed.last_hop_id, 3);
    assert_eq!(parsed.auth.dst_node, 7);
}

#[test]
fn truncated_frame_error() {
    let (_, store, mut cache) = make_env();
    let short = vec![0u8; MIN_FRAME_LEN - 1];
    assert_eq!(
        parse_and_verify_frame(&short, &store, &mut cache, unix_now_ms(), &[0u8; 32]).unwrap_err(),
        FrameError::TruncatedFrame
    );
}

fn unix_now_ms() -> u64 {
    std::time::SystemTime::now().duration_since(std::time::UNIX_EPOCH).unwrap_or_default().as_millis() as u64
}

#[test]
fn default_registry_and_cache_are_empty() {
    let store = PubkeyStore::default();
    assert!(store.get(1).is_none());
    let mut cache = NonceCache::default();
    let now = unix_now_ms();
    assert!(cache.check_and_insert(1, now, &[3u8; 12], now).is_ok());
}
