use vstd::prelude::*;

use chacha20::cipher::{KeyIvInit, StreamCipher};
use ed25519_dalek::{Signer, Verifier};

use crate::errors::FrameError;

verus! {

/// Length of an Ed25519 signature.
pub const SIG_LEN: usize = 64;

/// Longest buffer the XChaCha20 keystream covers from block 0: 2^32 - 1
/// blocks of 64 bytes. The cipher panics on anything longer.
pub const XCHACHA20_MAX_LEN: u64 = 0x3F_FFFF_FFC0;

/// The BLAKE3 digest (32 bytes) of `data`.
pub uninterp spec fn blake3_digest(data: Seq<u8>) -> Seq<u8>;

/// Byte `i` of the XChaCha20 keystream for `key` and the 24-byte `nonce`.
pub uninterp spec fn xchacha20_keystream_byte(key: Seq<u8>, nonce: Seq<u8>, i: nat) -> u8;

/// The Ed25519 verifying key (compressed point) of the 32-byte secret `secret`.
pub uninterp spec fn ed25519_public(secret: Seq<u8>) -> Seq<u8>;

/// The Ed25519 signature of `msg` under the 32-byte secret `secret`.
pub uninterp spec fn ed25519_signature(secret: Seq<u8>, msg: Seq<u8>) -> Seq<u8>;

/// Whether `sig` verifies for `msg` under the compressed verifying key `public`.
pub uninterp spec fn ed25519_accepts(public: Seq<u8>, msg: Seq<u8>, sig: Seq<u8>) -> bool;

/// `blake3::hash`: the contract names the 32-byte digest `blake3_digest(data)`.
#[verifier::external_body]
pub(crate) fn blake3_hash(data: &[u8]) -> (r: [u8; 32])
    ensures
        r@ == blake3_digest(data@),
{
    *blake3::hash(data).as_bytes()
}

/// `XChaCha20::apply_keystream` on a copy of `data`: the contract claims that byte
/// `i` of the result is byte `i` of `data` XORed with keystream byte `i` for
/// `key` and `nonce24`. A fresh cipher covers (2^32 - 1) * 64 bytes and panics on a
/// longer buffer, which `requires` excludes.
#[verifier::external_body]
fn xchacha20_xor(key: &[u8; 32], nonce24: &[u8; 24], data: &mut Vec<u8>)
    requires
        old(data)@.len() <= XCHACHA20_MAX_LEN,
    ensures
        final(data)@.len() == old(data)@.len(),
        forall|i: int|
            0 <= i < old(data)@.len() ==> #[trigger] final(data)@[i] == old(data)@[i]
                ^ xchacha20_keystream_byte(key@, nonce24@, i as nat),
{
    let mut cipher = chacha20::XChaCha20::new(key.into(), nonce24.into());
    cipher.apply_keystream(data.as_mut_slice());
}

/// `SigningKey::verifying_key` of `SigningKey::from_bytes(secret)`: the contract
/// names the compressed key `ed25519_public(secret)`.
#[verifier::external_body]
pub(crate) fn ed25519_verifying_key(secret: &[u8; 32]) -> (r: [u8; 32])
    ensures
        r@ == ed25519_public(secret@),
{
    ed25519_dalek::SigningKey::from_bytes(secret).verifying_key().to_bytes()
}

/// `SigningKey::sign` (deterministic Ed25519, RFC 8032): the contract names the
/// signature `ed25519_signature(secret, msg)` and claims that it verifies under
/// the key derived from the same secret, which holds of every Ed25519 signature
/// the signer produces.
#[verifier::external_body]
pub(crate) fn ed25519_sign(secret: &[u8; 32], msg: &[u8]) -> (r: [u8; 64])
    ensures
        r@ == ed25519_signature(secret@, msg@),
        ed25519_accepts(ed25519_public(secret@), msg@, r@),
{
    ed25519_dalek::SigningKey::from_bytes(secret).sign(msg).to_bytes()
}

/// `VerifyingKey::verify` after `VerifyingKey::from_bytes`: the contract names the
/// outcome `ed25519_accepts(public, msg, sig)`; a key that does not decompress
/// to a curve point rejects every signature.
#[verifier::external_body]
pub(crate) fn ed25519_verify(public: &[u8; 32], msg: &[u8], sig: &[u8; 64]) -> (r: bool)
    ensures
        r == ed25519_accepts(public@, msg@, sig@),
{
    match ed25519_dalek::VerifyingKey::from_bytes(public) {
        Ok(vk) => vk.verify(msg, &ed25519_dalek::Signature::from_bytes(sig)).is_ok(),
        Err(_) => false,
    }
}

/// `rand::random::<[u8; 32]>()` from the thread-local CSPRNG. Nothing is claimed
/// of the bytes.
#[verifier::external_body]
pub(crate) fn random_bytes32() -> (r: [u8; 32]) {
    rand::random::<[u8; 32]>()
}

/// The XChaCha20 transform of `data`: XOR with the keystream.
pub open spec fn xchacha20_spec(key: Seq<u8>, nonce24: Seq<u8>, data: Seq<u8>) -> Seq<u8> {
    Seq::new(data.len(), |i: int| data[i] ^ xchacha20_keystream_byte(key, nonce24, i as nat))
}

/// The 24-byte cipher nonce: node id, the low six timestamp bytes, five random
/// bytes, then twelve zero bytes.
pub open spec fn nonce24_spec(node_id: u8, timestamp_ms: u64, random: Seq<u8>) -> Seq<u8> {
    seq![node_id] + crate::bytes::le_bytes_u64(timestamp_ms).subrange(0, 6) + random.subrange(0, 5)
        + Seq::new(12, |i: int| 0u8)
}

/// Builds the nonce from already drawn random bytes (the first five are used).
/// Returns the 24-byte cipher nonce and its first 12 bytes, stored in the header.
pub fn build_nonce_from(node_id: u8, timestamp_ms: u64, random: &[u8; 32]) -> (r: ([u8; 24], [u8; 12]))
    ensures
        r.0@ == nonce24_spec(node_id, timestamp_ms, random@),
        r.1@ == r.0@.subrange(0, 12),
{
    let ts = crate::bytes::u64_to_le(timestamp_ms);
    let n24: [u8; 24] = [
        node_id, ts[0], ts[1], ts[2], ts[3], ts[4], ts[5],
        random[0], random[1], random[2], random[3], random[4],
        0, 0, 0, 0, 0, 0, 0, 0, 0, 0, 0, 0,
    ];
    let stored: [u8; 12] = [
        n24[0], n24[1], n24[2], n24[3], n24[4], n24[5], n24[6], n24[7], n24[8], n24[9], n24[10], n24[11],
    ];
    assert(n24@ =~= nonce24_spec(node_id, timestamp_ms, random@));
    assert(stored@ =~= n24@.subrange(0, 12));
    (n24, stored)
}

/// Builds the 24-byte XChaCha20 nonce `node_id || timestamp[0..6] || random[5]`
/// padded with zeros, and returns it with the 12-byte slice stored in the header.
pub fn build_nonce(node_id: u8, timestamp_ms: u64) -> (r: ([u8; 24], [u8; 12]))
    ensures
        exists|rnd: Seq<u8>| rnd.len() == 32 && r.0@ == nonce24_spec(node_id, timestamp_ms, rnd),
        r.1@ == r.0@.subrange(0, 12),
{
    let rnd = random_bytes32();
    let r = build_nonce_from(node_id, timestamp_ms, &rnd);
    assert(rnd@.len() == 32 && r.0@ == nonce24_spec(node_id, timestamp_ms, rnd@));
    r
}

/// Reconstructs the 24-byte nonce from the stored 12-byte header field.
pub fn nonce24_from_stored(stored: &[u8; 12]) -> (r: [u8; 24])
    ensures
        r@ == stored@ + Seq::new(12, |i: int| 0u8),
{
    let r: [u8; 24] = [
        stored[0], stored[1], stored[2], stored[3], stored[4], stored[5],
        stored[6], stored[7], stored[8], stored[9], stored[10], stored[11],
        0, 0, 0, 0, 0, 0, 0, 0, 0, 0, 0, 0,
    ];
    assert(r@ =~= stored@ + Seq::new(12, |i: int| 0u8));
    r
}

/// XChaCha20 in place: encryption and decryption are the same operation.
pub fn xchacha20_apply(key: &[u8; 32], nonce24: &[u8; 24], data: &mut Vec<u8>)
    requires
        old(data)@.len() <= XCHACHA20_MAX_LEN,
    ensures
        final(data)@ == xchacha20_spec(key@, nonce24@, old(data)@),
{
    xchacha20_xor(key, nonce24, data);
    assert(data@ =~= xchacha20_spec(key@, nonce24@, old(data)@));
}

/// Applying the cipher twice with the same key and nonce gives the data back.
pub proof fn lemma_xchacha20_involution(key: Seq<u8>, nonce24: Seq<u8>, data: Seq<u8>)
    ensures
        xchacha20_spec(key, nonce24, xchacha20_spec(key, nonce24, data)) == data,
{
    let once = xchacha20_spec(key, nonce24, data);
    let twice = xchacha20_spec(key, nonce24, once);
    assert forall|i: int| 0 <= i < data.len() implies twice[i] == data[i] by {
        let k = xchacha20_keystream_byte(key, nonce24, i as nat);
        let d = data[i];
        assert((d ^ k) ^ k == d) by (bit_vector);
    }
    assert(twice =~= data);
}

/// The first 12 bytes of the BLAKE3 hash of `data`, as carried in the header.
pub fn payload_hash12(data: &[u8]) -> (r: [u8; 12])
    ensures
        blake3_digest(data@).len() == 32,
        r@ == blake3_digest(data@).subrange(0, 12),
{
    let full = blake3_hash(data);
    let r: [u8; 12] = [
        full[0], full[1], full[2], full[3], full[4], full[5],
        full[6], full[7], full[8], full[9], full[10], full[11],
    ];
    assert(r@ =~= blake3_digest(data@).subrange(0, 12));
    r
}

/// Signs the bytes a frame signature covers with the node's secret key.
pub fn sign_auth(auth_bytes: &[u8], identity: &crate::identity::Identity) -> (r: [u8; SIG_LEN])
    ensures
        r@ == ed25519_signature(identity.signing_key@, auth_bytes@),
        ed25519_accepts(ed25519_public(identity.signing_key@), auth_bytes@, r@),
{
    ed25519_sign(&identity.signing_key, auth_bytes)
}

/// Verifies a signature over the bytes a frame signature covers.
pub fn verify_auth(auth_bytes: &[u8], sig_bytes: &[u8; SIG_LEN], verifying_key: &[u8; 32]) -> (r: Result<(), FrameError>)
    ensures
        r is Ok <==> ed25519_accepts(verifying_key@, auth_bytes@, sig_bytes@),
        r matches Err(e) ==> e == FrameError::BadSignature,
{
    if ed25519_verify(verifying_key, auth_bytes, sig_bytes) {
        Ok(())
    } else {
        Err(FrameError::BadSignature)
    }
}

/// Wall-clock milliseconds since the Unix epoch (`SystemTime::now`); nothing is
/// claimed of the value.
#[verifier::external_body]
pub fn unix_now_ms() -> u64 {
    std::time::SystemTime::now()
        .duration_since(std::time::UNIX_EPOCH)
        .unwrap_or_default()
        .as_millis() as u64
}

} // verus!
