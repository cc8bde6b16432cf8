use vstd::prelude::*;

use crate::bytes::{le_bytes_u16, le_bytes_u64, u64_of_le};
use crate::crypto::{
    blake3_digest, build_nonce_from, ed25519_accepts, ed25519_public, ed25519_signature,
    nonce24_from_stored, nonce24_spec, payload_hash12, random_bytes32, sign_auth, unix_now_ms,
    verify_auth, xchacha20_apply, xchacha20_spec, SIG_LEN, XCHACHA20_MAX_LEN,
};
use crate::errors::FrameError;
use crate::fec::{
    fec_data_shards, fec_encode, fec_params, fec_params_spec, rs_encode_outcome, shard_size, shards_view,
    FEC_THRESHOLD_BYTES,
};
use crate::headers::{
    auth_header_bytes, auth_header_parses, lemma_auth_header_fields, routed_header_bytes,
    AuthHeader, RoutedHeader, AUTH_HEADER_LEN, ROUTED_HEADER_LEN,
};
use crate::identity::{Identity, PubkeyStore};
use crate::nonce_cache::{
    abs_diff, entry_has_key, evict_stale, lemma_accepted_triple_is_remembered, nonce_eq, seen_key,
    NonceCache, NonceEntry, TIME_WINDOW_MS,
};
use crate::priority::{msg_kind_code, priority_code, MsgKind, Priority};

verus! {

/// Shortest valid frame: routing header, auth header and signature.
pub const MIN_FRAME_LEN: usize = 112;

/// A payload tagged with its kind, as handed to the frame builder.
#[derive(Debug, Clone)]
pub struct TacticalMessage {
    pub kind: MsgKind,
    pub payload: Vec<u8>,
}

/// A verified and decrypted frame.
#[derive(Debug)]
pub struct ParsedFrame {
    pub routed: RoutedHeader,
    pub auth: AuthHeader,
    pub plaintext: Vec<u8>,
    /// Filled in by the radio layer; zero here.
    pub rssi_dbm: i8,
}

/// Twelve zero bytes (the nonce padding).
pub open spec fn zeros12() -> Seq<u8> {
    Seq::new(12, |i: int| 0u8)
}

/// The FEC `(k, n)` advertised in the header of a single-frame message.
pub open spec fn frame_fec_kn(prio: Priority, len: nat) -> (u8, u8) {
    if len > FEC_THRESHOLD_BYTES {
        (fec_params_spec(prio).0 as u8, fec_params_spec(prio).1 as u8)
    } else {
        (1, 1)
    }
}

/// Wire image of an auth header (epoch 0) with FEC fields `fec`:
/// `(index, k, n, block id)`.
pub open spec fn message_auth_bytes(
    src: u8, dst: u8, kind: MsgKind, prio: Priority, ts: u64, nonce12: Seq<u8>, hash12: Seq<u8>,
    plen: u16, fec: (u8, u8, u8, u8),
) -> Seq<u8> {
    seq![src, dst, msg_kind_code(kind), priority_code(prio)] + le_bytes_u64(ts) + nonce12 + hash12
        + le_bytes_u16(0) + le_bytes_u16(plen) + seq![fec.0, fec.1, fec.2, fec.3]
}

/// The auth header of a frame carrying `payload`, built at time `now` with
/// random bytes `rnd`, with FEC fields `fec`.
pub open spec fn payload_auth_bytes(
    kind: MsgKind, payload: Seq<u8>, prio: Priority, dst: u8, id: Identity, now: u64, rnd: Seq<u8>,
    fec: (u8, u8, u8, u8),
) -> Seq<u8> {
    message_auth_bytes(
        id.node_id, dst, kind, prio, now, nonce24_spec(id.node_id, now, rnd).subrange(0, 12),
        blake3_digest(payload).subrange(0, 12), payload.len() as u16, fec,
    )
}

/// The FEC fields of a single-frame message: index 0, block 0.
pub open spec fn message_fec(prio: Priority, len: nat) -> (u8, u8, u8, u8) {
    (0u8, frame_fec_kn(prio, len).0, frame_fec_kn(prio, len).1, 0u8)
}

/// The header of a single-frame message.
pub open spec fn frame_auth_bytes(
    kind: MsgKind, payload: Seq<u8>, prio: Priority, dst: u8, id: Identity, now: u64, rnd: Seq<u8>,
) -> Seq<u8> {
    payload_auth_bytes(kind, payload, prio, dst, id, now, rnd, message_fec(prio, payload.len()))
}

/// The bytes a frame's signature covers: the auth header followed by the
/// payload hash it carries (header bytes 24 to 36).
pub open spec fn signed_bytes(auth: Seq<u8>) -> Seq<u8> {
    auth + auth.subrange(24, 36)
}

/// A complete frame: routing header, auth header, the XChaCha20 ciphertext of
/// the payload, and the Ed25519 signature over the auth header and payload hash.
pub open spec fn payload_frame(
    kind: MsgKind, payload: Seq<u8>, prio: Priority, dst: u8, id: Identity, last_hop: u8, hops: u8,
    now: u64, rnd: Seq<u8>, fec: (u8, u8, u8, u8),
) -> Seq<u8> {
    let auth = payload_auth_bytes(kind, payload, prio, dst, id, now, rnd, fec);
    seq![last_hop, hops, 0u8, 0u8] + auth
        + xchacha20_spec(id.session_key@, nonce24_spec(id.node_id, now, rnd), payload)
        + ed25519_signature(id.signing_key@, signed_bytes(auth))
}

/// The frame of a single-frame message.
pub open spec fn message_frame(
    kind: MsgKind, payload: Seq<u8>, prio: Priority, dst: u8, id: Identity, last_hop: u8, hops: u8,
    now: u64, rnd: Seq<u8>,
) -> Seq<u8> {
    payload_frame(kind, payload, prio, dst, id, last_hop, hops, now, rnd, message_fec(prio, payload.len()))
}

/// `raw` is the frame built from these inputs, and its signature verifies
/// under the builder's verifying key (as every signature the signer produces does).
pub open spec fn signed_frame(
    raw: Seq<u8>, kind: MsgKind, payload: Seq<u8>, prio: Priority, dst: u8, id: Identity, last_hop: u8,
    hops: u8, now: u64, rnd: Seq<u8>, fec: (u8, u8, u8, u8),
) -> bool {
    let auth = payload_auth_bytes(kind, payload, prio, dst, id, now, rnd, fec);
    &&& raw == payload_frame(kind, payload, prio, dst, id, last_hop, hops, now, rnd, fec)
    &&& blake3_digest(payload).len() == 32
    &&& ed25519_signature(id.signing_key@, signed_bytes(auth)).len() == 64
    &&& ed25519_accepts(ed25519_public(id.signing_key@), signed_bytes(auth), ed25519_signature(id.signing_key@, signed_bytes(auth)))
}

/// `raw` is the single frame built for a message from these inputs.
pub open spec fn built_frame(
    raw: Seq<u8>, kind: MsgKind, payload: Seq<u8>, prio: Priority, dst: u8, id: Identity, last_hop: u8,
    hops: u8, now: u64, rnd: Seq<u8>,
) -> bool {
    signed_frame(raw, kind, payload, prio, dst, id, last_hop, hops, now, rnd, message_fec(prio, payload.len()))
}

/// Appends `s` to `v`.
pub(crate) fn append_bytes(v: &mut Vec<u8>, s: &[u8])
    ensures
        final(v)@ == old(v)@ + s@,
{
    let mut i: usize = 0;
    while i < s.len()
        invariant
            0 <= i <= s@.len(),
            v@ == old(v)@ + s@.subrange(0, i as int),
        decreases s@.len() - i,
    {
        v.push(s[i]);
        assert(v@ =~= old(v)@ + s@.subrange(0, i + 1));
        i = i + 1;
    }
    assert(s@.subrange(0, s@.len() as int) =~= s@);
}

/// Copies a slice into a new vector.
pub fn bytes_to_vec(s: &[u8]) -> (r: Vec<u8>)
    ensures
        r@ == s@,
{
    let mut v: Vec<u8> = Vec::new();
    append_bytes(&mut v, s);
    assert(v@ =~= s@);
    v
}

/// Concatenates routing header, auth header, ciphertext and signature.
pub fn assemble_frame(routed: &RoutedHeader, auth_bytes: &[u8; AUTH_HEADER_LEN], ciphertext: &[u8], sig: &[u8; SIG_LEN]) -> (r: Vec<u8>)
    ensures
        r@ == routed_header_bytes(*routed) + auth_bytes@ + ciphertext@ + sig@,
{
    let mut frame: Vec<u8> = Vec::new();
    let rb = routed.to_bytes();
    append_bytes(&mut frame, rb.as_slice());
    append_bytes(&mut frame, auth_bytes.as_slice());
    append_bytes(&mut frame, ciphertext);
    append_bytes(&mut frame, sig.as_slice());
    frame
}

/// The message a frame's signature covers (see `signed_bytes`).
fn signed_message(auth: &[u8]) -> (r: Vec<u8>)
    requires
        auth@.len() == AUTH_HEADER_LEN,
    ensures
        r@ == signed_bytes(auth@),
{
    let mut v = bytes_to_vec(auth);
    append_bytes(&mut v, &auth[24..36]);
    v
}

/// Builds the frame carrying `payload` at time `now_ms` from the random bytes
/// `rnd` (the first five go into the nonce), with FEC fields `fec` and
/// `last_hop`, `hops_taken` in the routing header.
pub fn build_payload_frame(
    kind: MsgKind, payload: &[u8], prio: Priority, dst: u8, identity: &Identity, last_hop: u8,
    hops_taken: u8, now_ms: u64, rnd: &[u8; 32], fec: (u8, u8, u8, u8),
) -> (r: Vec<u8>)
    requires
        payload@.len() <= XCHACHA20_MAX_LEN,
    ensures
        signed_frame(r@, kind, payload@, prio, dst, *identity, last_hop, hops_taken, now_ms, rnd@, fec),
{
    let (nonce24, stored_nonce) = build_nonce_from(identity.node_id, now_ms, rnd);
    let phash = payload_hash12(payload);
    let auth = AuthHeader {
        src_node: identity.node_id,
        dst_node: dst,
        msg_kind: kind,
        priority: prio,
        timestamp_ms: now_ms,
        nonce: stored_nonce,
        payload_hash: phash,
        epoch: 0,
        payload_len: payload.len() as u16,
        fec_index: fec.0,
        fec_k: fec.1,
        fec_n: fec.2,
        fec_block_id: fec.3,
    };
    let auth_bytes = auth.to_bytes();
    assert(auth_bytes@ =~= payload_auth_bytes(kind, payload@, prio, dst, *identity, now_ms, rnd@, fec));
    let signed = signed_message(auth_bytes.as_slice());
    let sig = sign_auth(signed.as_slice(), identity);
    let mut ciphertext = bytes_to_vec(payload);
    xchacha20_apply(&identity.session_key, &nonce24, &mut ciphertext);
    let routed = RoutedHeader { last_hop_id: last_hop, hops_taken, flags: 0, reserved: 0 };
    let frame = assemble_frame(&routed, &auth_bytes, ciphertext.as_slice(), &sig);
    assert(frame@ =~= payload_frame(kind, payload@, prio, dst, *identity, last_hop, hops_taken, now_ms, rnd@, fec));
    frame
}

/// Builds the single frame of a message at time `now_ms` from the random bytes
/// `rnd`. The header advertises the priority's FEC `(k, n)` for payloads above
/// the FEC threshold, `(1, 1)` otherwise.
pub fn build_frame_inner(
    msg: &TacticalMessage, prio: Priority, dst: u8, identity: &Identity, last_hop: u8, hops_taken: u8,
    now_ms: u64, rnd: &[u8; 32],
) -> (r: Vec<u8>)
    requires
        msg.payload@.len() <= XCHACHA20_MAX_LEN,
    ensures
        built_frame(r@, msg.kind, msg.payload@, prio, dst, *identity, last_hop, hops_taken, now_ms, rnd@),
{
    let (fec_k, fec_n): (u8, u8) = if msg.payload.len() > FEC_THRESHOLD_BYTES {
        let (k, n) = fec_params(prio);
        (k as u8, n as u8)
    } else {
        (1, 1)
    };
    build_payload_frame(msg.kind, msg.payload.as_slice(), prio, dst, identity, last_hop, hops_taken, now_ms, rnd, (0, fec_k, fec_n, 0))
}

/// `raw` is a frame built by `id` for the message, with `last_hop` in its
/// routing header, at some time and with some fresh random nonce bytes.
pub open spec fn sent_frame(raw: Seq<u8>, kind: MsgKind, payload: Seq<u8>, prio: Priority, dst: u8, id: Identity, last_hop: u8) -> bool {
    exists|now: u64, rnd: Seq<u8>| rnd.len() == 32 && #[trigger] built_frame(raw, kind, payload, prio, dst, id, last_hop, 0, now, rnd)
}

/// Builds a single frame stamped with the current time and a fresh nonce; the
/// routing header names this node as last hop.
pub fn build_frame(msg: &TacticalMessage, prio: Priority, dst: u8, identity: &Identity) -> (r: Vec<u8>)
    requires
        msg.payload@.len() <= XCHACHA20_MAX_LEN,
    ensures
        sent_frame(r@, msg.kind, msg.payload@, prio, dst, *identity, identity.node_id),
{
    let now = unix_now_ms();
    let rnd = random_bytes32();
    let r = build_frame_inner(msg, prio, dst, identity, identity.node_id, 0, now, &rnd);
    assert(rnd@.len() == 32 && built_frame(r@, msg.kind, msg.payload@, prio, dst, *identity, identity.node_id, 0, now, rnd@));
    r
}

/// Builds a frame whose routing header names `next_hop` as last hop.
pub fn build_frame_for_route(msg: &TacticalMessage, prio: Priority, dst: u8, identity: &Identity, next_hop: u8) -> (r: Vec<u8>)
    requires
        msg.payload@.len() <= XCHACHA20_MAX_LEN,
    ensures
        sent_frame(r@, msg.kind, msg.payload@, prio, dst, *identity, next_hop),
{
    let now = unix_now_ms();
    let rnd = random_bytes32();
    let r = build_frame_inner(msg, prio, dst, identity, next_hop, 0, now, &rnd);
    assert(rnd@.len() == 32 && built_frame(r@, msg.kind, msg.payload@, prio, dst, *identity, next_hop, 0, now, rnd@));
    r
}

/// `frame` is the frame of shard `i` of block `block`, coded `(k, n)`, stamped
/// `ts`, sent by this node with a nonce of its own.
pub open spec fn shard_frame(
    frame: Seq<u8>, kind: MsgKind, shard: Seq<u8>, prio: Priority, dst: u8, id: Identity, ts: u64, block: u8,
    i: int, k: nat, n: nat,
) -> bool {
    exists|rnd: Seq<u8>| rnd.len() == 32 && #[trigger] signed_frame(
        frame, kind, shard, prio, dst, id, id.node_id, 0, ts, rnd, (i as u8, k as u8, n as u8, block))
}

/// `frames` are the frames of `shards`, one per shard in order, all of one
/// block and one timestamp.
pub open spec fn shard_frames(
    frames: Seq<Seq<u8>>, kind: MsgKind, shards: Seq<Seq<u8>>, prio: Priority, dst: u8, id: Identity, ts: u64,
    block: u8, k: nat, n: nat,
) -> bool {
    &&& frames.len() == shards.len()
    &&& forall|i: int| 0 <= i < frames.len() ==> #[trigger] shard_frame(frames[i], kind, shards[i], prio, dst, id, ts, block, i, k, n)
}

/// `frames` are the frames of `shards` for some timestamp and block id.
pub open spec fn block_frames(
    frames: Seq<Seq<u8>>, kind: MsgKind, shards: Seq<Seq<u8>>, prio: Priority, dst: u8, id: Identity, k: nat, n: nat,
) -> bool {
    exists|ts: u64, block: u8| #[trigger] shard_frames(frames, kind, shards, prio, dst, id, ts, block, k, n)
}

/// `frames` is the one frame of a message, sent by this node with a fresh nonce.
pub open spec fn single_frame(frames: Seq<Seq<u8>>, kind: MsgKind, payload: Seq<u8>, prio: Priority, dst: u8, id: Identity) -> bool {
    &&& frames.len() == 1
    &&& sent_frame(frames[0], kind, payload, prio, dst, id, id.node_id)
}

/// The contents of a list of frames.
pub open spec fn frames_view(v: Seq<Vec<u8>>) -> Seq<Seq<u8>> {
    v.map_values(|f: Vec<u8>| f@)
}

proof fn lemma_shard_size_le(len: nat, k: nat)
    requires
        len >= 1,
        k >= 1,
    ensures
        shard_size(len, k) <= len,
{
    assert((len + k - 1) / (k as int) <= len) by (nonlinear_arith)
        requires len >= 1, k >= 1;
}

/// Builds the frames of a message: one frame when the payload is at most
/// `FEC_THRESHOLD_BYTES`, else one frame per FEC shard (the priority's `(k, n)`),
/// all stamped with one timestamp and a random block id, each shard with its
/// own nonce so that no keystream is reused. Fails only when FEC encoding does.
pub fn build_frames(msg: &TacticalMessage, prio: Priority, dst: u8, identity: &Identity) -> (r: Result<Vec<Vec<u8>>, FrameError>)
    requires
        msg.payload@.len() <= XCHACHA20_MAX_LEN,
        msg.payload@.len() + 16 <= usize::MAX,
    ensures
        msg.payload@.len() <= FEC_THRESHOLD_BYTES ==> (r matches Ok(frames)
            && single_frame(frames_view(frames@), msg.kind, msg.payload@, prio, dst, *identity)),
        msg.payload@.len() > FEC_THRESHOLD_BYTES ==> ({
            let (k, n) = fec_params_spec(prio);
            let orig = fec_data_shards(msg.payload@, k as nat);
            match rs_encode_outcome(k as nat, (n - k) as nat, orig) {
                Ok(rec) => r matches Ok(frames) && block_frames(
                    frames_view(frames@), msg.kind, orig + rec, prio, dst, *identity, k as nat, n as nat),
                Err(m) => r matches Err(FrameError::FecError(e)) && e@ == m,
            }
        }),
{
    if msg.payload.len() <= FEC_THRESHOLD_BYTES {
        let f = build_frame(msg, prio, dst, identity);
        let mut frames: Vec<Vec<u8>> = Vec::new();
        frames.push(f);
        proof {
            assert(frames_view(frames@)[0] == f@);
        }
        return Ok(frames);
    }
    let (k, n) = fec_params(prio);
    let shards = match fec_encode(msg.payload.as_slice(), prio) {
        Ok(s) => s,
        Err(e) => return Err(e),
    };
    let ghost orig = fec_data_shards(msg.payload@, k as nat);
    let ghost all = shards_view(shards@);
    proof {
        lemma_shard_size_le(msg.payload@.len(), k as nat);
        assert(all.len() == shards@.len());
    }
    let block_id = random_bytes32()[0];
    let base_ts = unix_now_ms();
    let mut frames: Vec<Vec<u8>> = Vec::new();
    let mut idx: usize = 0;
    while idx < shards.len()
        invariant
            0 <= idx <= shards@.len(),
            shards@.len() == n,
            n <= 12,
            frames@.len() == idx,
            forall|j: int| 0 <= j < shards@.len() ==> (#[trigger] shards@[j])@.len() <= XCHACHA20_MAX_LEN,
            1 <= k <= 8,
            forall|j: int| 0 <= j < idx ==> #[trigger] shard_frame(frames@[j]@, msg.kind, shards@[j]@, prio, dst,
                *identity, base_ts, block_id, j, k as nat, n as nat),
        decreases shards@.len() - idx,
    {
        let ghost before = frames@;
        let rnd = random_bytes32();
        let f = build_payload_frame(
            msg.kind, shards[idx].as_slice(), prio, dst, identity, identity.node_id, 0, base_ts, &rnd,
            (idx as u8, k as u8, n as u8, block_id),
        );
        frames.push(f);
        proof {
            assert(frames@[idx as int]@ == f@);
            assert(signed_frame(f@, msg.kind, shards@[idx as int]@, prio, dst, *identity, identity.node_id, 0,
                base_ts, rnd@, ((idx as int) as u8, (k as nat) as u8, (n as nat) as u8, block_id)));
            assert(shard_frame(frames@[idx as int]@, msg.kind, shards@[idx as int]@, prio, dst, *identity,
                base_ts, block_id, idx as int, k as nat, n as nat));
            assert forall|j: int| 0 <= j < idx implies frames@[j] == before[j] by {}
        }
        idx = idx + 1;
    }
    proof {
        let fv = frames_view(frames@);
        assert forall|i: int| 0 <= i < fv.len() implies #[trigger] shard_frame(fv[i], msg.kind, all[i], prio, dst,
            *identity, base_ts, block_id, i, k as nat, n as nat) by {
            assert(fv[i] == frames@[i]@);
            assert(all[i] == shards@[i]@);
        }
        assert(shard_frames(fv, msg.kind, all, prio, dst, *identity, base_ts, block_id, k as nat, n as nat));
        assert(all == orig + rs_encode_outcome(k as nat, (n - k) as nat, orig)->Ok_0);
        assert(fec_params_spec(prio) == (k, n));
        assert(block_frames(
            frames_view(frames@), msg.kind, orig + rs_encode_outcome(k as nat, (n - k) as nat, orig)->Ok_0,
            prio, dst, *identity, k as nat, n as nat));
    }
    Ok(frames)
}

/// The auth header bytes of a raw frame.
pub open spec fn frame_auth_slice(raw: Seq<u8>) -> Seq<u8> {
    raw.subrange(4, 48)
}

/// The signature bytes of a raw frame: its last 64 bytes.
pub open spec fn frame_sig_slice(raw: Seq<u8>) -> Seq<u8> {
    raw.subrange(raw.len() - 64, raw.len() as int)
}

/// The ciphertext of a raw frame: between the auth header and the signature.
pub open spec fn frame_ciphertext(raw: Seq<u8>) -> Seq<u8> {
    raw.subrange(48, raw.len() - 64)
}

/// The sender named in a raw frame.
pub open spec fn frame_src(raw: Seq<u8>) -> u8 {
    raw[4]
}

/// The timestamp named in a raw frame.
pub open spec fn frame_ts(raw: Seq<u8>) -> u64 {
    u64_of_le(raw.subrange(8, 16))
}

/// The stored 12-byte nonce of a raw frame.
pub open spec fn frame_nonce(raw: Seq<u8>) -> Seq<u8> {
    raw.subrange(16, 28)
}

/// The decryption of a raw frame's ciphertext under `key`.
pub open spec fn frame_plaintext(raw: Seq<u8>, key: Seq<u8>) -> Seq<u8> {
    xchacha20_spec(key, frame_nonce(raw) + zeros12(), frame_ciphertext(raw))
}

/// Whether the frame's sender is registered and the signature verifies.
pub open spec fn frame_signed(raw: Seq<u8>, keys: Map<u8, [u8; 32]>) -> bool {
    keys.contains_key(frame_src(raw)) && ed25519_accepts(
        keys[frame_src(raw)]@, signed_bytes(frame_auth_slice(raw)), frame_sig_slice(raw))
}

/// What parsing decides for `raw`: the plaintext, or the first failed check in
/// order length, header codes, signature, time window, replay, payload hash.
pub open spec fn frame_verdict(
    raw: Seq<u8>, keys: Map<u8, [u8; 32]>, cache: Seq<NonceEntry>, local: u64, key: Seq<u8>,
) -> Result<Seq<u8>, FrameError> {
    if raw.len() < MIN_FRAME_LEN {
        Err(FrameError::TruncatedFrame)
    } else if !auth_header_parses(frame_auth_slice(raw)) {
        Err(FrameError::TruncatedFrame)
    } else if !frame_signed(raw, keys) {
        Err(FrameError::BadSignature)
    } else if abs_diff(local, frame_ts(raw)) > TIME_WINDOW_MS {
        Err(FrameError::TimeWindowExpired)
    } else if seen_key(cache, frame_src(raw), frame_ts(raw), frame_nonce(raw)) {
        Err(FrameError::ReplayedNonce)
    } else if blake3_digest(frame_plaintext(raw, key)).subrange(0, 12) != raw.subrange(28, 40) {
        Err(FrameError::DecryptFailed)
    } else {
        Ok(frame_plaintext(raw, key))
    }
}

/// Whether the frame passes every check up to and including the replay check,
/// so that its triple is remembered.
pub open spec fn frame_reaches_cache(raw: Seq<u8>, keys: Map<u8, [u8; 32]>, cache: Seq<NonceEntry>, local: u64) -> bool {
    &&& raw.len() >= MIN_FRAME_LEN
    &&& auth_header_parses(frame_auth_slice(raw))
    &&& frame_signed(raw, keys)
    &&& abs_diff(local, frame_ts(raw)) <= TIME_WINDOW_MS
    &&& !seen_key(cache, frame_src(raw), frame_ts(raw), frame_nonce(raw))
}

/// `after` is `before` with stale entries evicted and the frame's triple added.
pub open spec fn cache_records(before: Seq<NonceEntry>, after: Seq<NonceEntry>, raw: Seq<u8>, local: u64) -> bool {
    &&& after.len() > 0
    &&& after.drop_last() == evict_stale(before, local)
    &&& entry_has_key(after.last(), frame_src(raw), frame_ts(raw), frame_nonce(raw))
    &&& after.last().inserted_at == local
}

/// Copies the 64 signature bytes out of a frame.
fn frame_signature(raw: &[u8]) -> (r: [u8; SIG_LEN])
    requires
        raw@.len() >= MIN_FRAME_LEN,
    ensures
        r@ == frame_sig_slice(raw@),
{
    let b = raw.len() - 64;
    let r = [raw[b + 0], raw[b + 1], raw[b + 2], raw[b + 3], raw[b + 4], raw[b + 5], raw[b + 6], raw[b + 7], raw[b + 8], raw[b + 9], raw[b + 10], raw[b + 11], raw[b + 12], raw[b + 13], raw[b + 14], raw[b + 15], raw[b + 16], raw[b + 17], raw[b + 18], raw[b + 19], raw[b + 20], raw[b + 21], raw[b + 22], raw[b + 23], raw[b + 24], raw[b + 25], raw[b + 26], raw[b + 27], raw[b + 28], raw[b + 29], raw[b + 30], raw[b + 31], raw[b + 32], raw[b + 33], raw[b + 34], raw[b + 35], raw[b + 36], raw[b + 37], raw[b + 38], raw[b + 39], raw[b + 40], raw[b + 41], raw[b + 42], raw[b + 43], raw[b + 44], raw[b + 45], raw[b + 46], raw[b + 47], raw[b + 48], raw[b + 49], raw[b + 50], raw[b + 51], raw[b + 52], raw[b + 53], raw[b + 54], raw[b + 55], raw[b + 56], raw[b + 57], raw[b + 58], raw[b + 59], raw[b + 60], raw[b + 61], raw[b + 62], raw[b + 63]];
    assert(r@ =~= frame_sig_slice(raw@));
    r
}

/// Splits a frame's headers: the routing header and the parsed auth header.
fn parse_headers(raw: &[u8]) -> (r: Result<(RoutedHeader, AuthHeader), FrameError>)
    ensures
        r is Ok <==> raw@.len() >= MIN_FRAME_LEN && auth_header_parses(frame_auth_slice(raw@)),
        r matches Err(e) ==> e == FrameError::TruncatedFrame,
        r matches Ok((routed, auth)) ==> {
            &&& routed_header_bytes(routed) == raw@.subrange(0, 4)
            &&& auth_header_bytes(auth) == frame_auth_slice(raw@)
            &&& auth.src_node == frame_src(raw@)
            &&& auth.timestamp_ms == frame_ts(raw@)
            &&& auth.nonce@ == frame_nonce(raw@)
            &&& auth.payload_hash@ == raw@.subrange(28, 40)
        },
{
    if raw.len() < MIN_FRAME_LEN {
        return Err(FrameError::TruncatedFrame);
    }
    let routed = match RoutedHeader::from_bytes(&raw[0..ROUTED_HEADER_LEN]) {
        Ok(h) => h,
        Err(e) => return Err(e),
    };
    let auth_slice = &raw[ROUTED_HEADER_LEN..ROUTED_HEADER_LEN + AUTH_HEADER_LEN];
    assert(auth_slice@ == frame_auth_slice(raw@));
    let auth = match AuthHeader::from_bytes(auth_slice) {
        Ok(h) => h,
        Err(e) => return Err(e),
    };
    proof {
        assert(auth_slice@.subrange(0, 44) =~= auth_slice@);
        lemma_auth_header_fields(auth, frame_auth_slice(raw@));
        assert(frame_auth_slice(raw@).subrange(4, 12) =~= raw@.subrange(8, 16));
        assert(frame_auth_slice(raw@).subrange(12, 24) =~= frame_nonce(raw@));
        assert(frame_auth_slice(raw@).subrange(24, 36) =~= raw@.subrange(28, 40));
        assert(raw@.subrange(0, 4).subrange(0, 4) =~= raw@.subrange(0, 4));
    }
    Ok((routed, auth))
}

/// Decrypts the ciphertext of a frame and checks it against the signed hash.
fn decrypt_checked(raw: &[u8], auth: &AuthHeader, session_key: &[u8; 32]) -> (r: Option<Vec<u8>>)
    requires
        raw@.len() >= MIN_FRAME_LEN,
        raw@.len() <= XCHACHA20_MAX_LEN,
        auth.nonce@ == frame_nonce(raw@),
        auth.payload_hash@ == raw@.subrange(28, 40),
    ensures
        r is Some <==> blake3_digest(frame_plaintext(raw@, session_key@)).subrange(0, 12) == raw@.subrange(28, 40),
        r matches Some(p) ==> p@ == frame_plaintext(raw@, session_key@),
{
    let nonce24 = nonce24_from_stored(&auth.nonce);
    let mut plaintext = bytes_to_vec(&raw[ROUTED_HEADER_LEN + AUTH_HEADER_LEN..raw.len() - SIG_LEN]);
    xchacha20_apply(session_key, &nonce24, &mut plaintext);
    assert(plaintext@ == frame_plaintext(raw@, session_key@));
    let computed = payload_hash12(plaintext.as_slice());
    if nonce_eq(&computed, &auth.payload_hash) {
        Some(plaintext)
    } else {
        None
    }
}

/// Parses, signature-verifies, replay-checks and decrypts a raw frame, in that
/// order. The replay cache is updated once a frame passes the replay check.
pub fn parse_and_verify_frame(
    raw: &[u8], known_pubkeys: &PubkeyStore, nonce_cache: &mut NonceCache, local_time_ms: u64,
    session_key: &[u8; 32],
) -> (r: Result<ParsedFrame, FrameError>)
    requires
        raw@.len() <= XCHACHA20_MAX_LEN,
    ensures
        ({
            let v = frame_verdict(raw@, known_pubkeys@, old(nonce_cache)@, local_time_ms, session_key@);
            &&& r is Ok <==> v is Ok
            &&& r matches Err(e) ==> v == Err::<Seq<u8>, FrameError>(e)
            &&& r matches Ok(p) ==> {
                &&& v == Ok::<Seq<u8>, FrameError>(p.plaintext@)
                &&& routed_header_bytes(p.routed) == raw@.subrange(0, 4)
                &&& auth_header_bytes(p.auth) == frame_auth_slice(raw@)
                &&& p.rssi_dbm == 0
            }
        }),
        frame_reaches_cache(raw@, known_pubkeys@, old(nonce_cache)@, local_time_ms)
            ==> cache_records(old(nonce_cache)@, final(nonce_cache)@, raw@, local_time_ms),
        !frame_reaches_cache(raw@, known_pubkeys@, old(nonce_cache)@, local_time_ms)
            ==> final(nonce_cache)@ == old(nonce_cache)@,
{
    let (routed, auth) = match parse_headers(raw) {
        Ok(h) => h,
        Err(e) => return Err(e),
    };
    let sig = frame_signature(raw);
    let verifying_key = match known_pubkeys.get(auth.src_node) {
        Some(k) => k,
        None => return Err(FrameError::BadSignature),
    };
    let auth_slice = &raw[ROUTED_HEADER_LEN..ROUTED_HEADER_LEN + AUTH_HEADER_LEN];
    let signed = signed_message(auth_slice);
    match verify_auth(signed.as_slice(), &sig, verifying_key) {
        Ok(()) => {},
        Err(e) => return Err(e),
    }
    match nonce_cache.check_and_insert(auth.src_node, auth.timestamp_ms, &auth.nonce, local_time_ms) {
        Ok(()) => {},
        Err(e) => return Err(e),
    }
    proof {
        lemma_accepted_triple_is_remembered(old(nonce_cache)@, auth.src_node, auth.timestamp_ms, auth.nonce, local_time_ms);
        assert(nonce_cache@.drop_last() =~= evict_stale(old(nonce_cache)@, local_time_ms));
    }
    match decrypt_checked(raw, &auth, session_key) {
        Some(plaintext) => Ok(ParsedFrame { routed, auth, plaintext, rssi_dbm: 0 }),
        None => Err(FrameError::DecryptFailed),
    }
}

/// Authenticity: a frame is accepted only when its sender is registered, the
/// signature over its auth header and payload hash verifies under the registered key, its
/// timestamp is within the window and its triple has not been seen.
pub proof fn lemma_accepted_frame_is_authentic(
    raw: Seq<u8>, keys: Map<u8, [u8; 32]>, cache: Seq<NonceEntry>, local: u64, key: Seq<u8>,
)
    requires
        frame_verdict(raw, keys, cache, local, key) is Ok,
    ensures
        keys.contains_key(frame_src(raw)),
        ed25519_accepts(keys[frame_src(raw)]@, signed_bytes(frame_auth_slice(raw)), frame_sig_slice(raw)),
        abs_diff(local, frame_ts(raw)) <= TIME_WINDOW_MS,
        !seen_key(cache, frame_src(raw), frame_ts(raw), frame_nonce(raw)),
{
}

/// Replay protection: once a frame has been accepted and its triple recorded,
/// the same frame is rejected, whatever the local time.
pub proof fn lemma_frame_replay_rejected(
    raw: Seq<u8>, keys: Map<u8, [u8; 32]>, before: Seq<NonceEntry>, after: Seq<NonceEntry>, local: u64,
    later: u64, key: Seq<u8>,
)
    requires
        cache_records(before, after, raw, local),
    ensures
        frame_verdict(raw, keys, after, later, key) is Err,
{
    assert(entry_has_key(after[after.len() - 1], frame_src(raw), frame_ts(raw), frame_nonce(raw)));
}

/// A frame built by this node (a single frame or one FEC shard frame) is
/// accepted by every receiver that has its verifying key, shares its session
/// key, has not seen its nonce and whose clock is within the window: parsing
/// gives back exactly the payload, and the frame's triple is then remembered.
pub proof fn lemma_frame_round_trip(
    raw: Seq<u8>, kind: MsgKind, payload: Seq<u8>, prio: Priority, dst: u8, id: Identity, last_hop: u8,
    hops: u8, now: u64, rnd: Seq<u8>, fec: (u8, u8, u8, u8), keys: Map<u8, [u8; 32]>,
    cache: Seq<NonceEntry>, local: u64,
)
    requires
        signed_frame(raw, kind, payload, prio, dst, id, last_hop, hops, now, rnd, fec),
        id.wf(),
        rnd.len() == 32,
        keys.contains_key(id.node_id),
        keys[id.node_id] == id.verifying_key,
        abs_diff(local, now) <= TIME_WINDOW_MS,
        !seen_key(cache, id.node_id, now, nonce24_spec(id.node_id, now, rnd).subrange(0, 12)),
    ensures
        frame_verdict(raw, keys, cache, local, id.session_key@) == Ok::<Seq<u8>, FrameError>(payload),
        frame_reaches_cache(raw, keys, cache, local),
{
    let auth = payload_auth_bytes(kind, payload, prio, dst, id, now, rnd, fec);
    let sig = ed25519_signature(id.signing_key@, signed_bytes(auth));
    let n24 = nonce24_spec(id.node_id, now, rnd);
    let ct = xchacha20_spec(id.session_key@, n24, payload);
    assert(auth.len() == 44);
    assert(raw.len() >= MIN_FRAME_LEN);
    assert(frame_auth_slice(raw) =~= auth);
    assert(frame_sig_slice(raw) =~= sig);
    assert(frame_ciphertext(raw) =~= ct);
    crate::bytes::lemma_le_u64_round_trip(now, seq![]);
    assert(raw.subrange(8, 16) =~= le_bytes_u64(now));
    assert(frame_ts(raw) == now);
    assert(frame_src(raw) == id.node_id);
    assert(frame_nonce(raw) =~= n24.subrange(0, 12));
    assert(frame_nonce(raw) + zeros12() =~= n24);
    crate::crypto::lemma_xchacha20_involution(id.session_key@, n24, payload);
    assert(frame_plaintext(raw, id.session_key@) == payload);
    assert(raw.subrange(28, 40) =~= blake3_digest(payload).subrange(0, 12));
    assert(auth_header_parses(frame_auth_slice(raw)));
}

} // verus!
