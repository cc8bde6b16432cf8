use std::collections::HashMap;

use vstd::prelude::*;

use crate::crypto::{blake3_digest, blake3_hash, ed25519_public, ed25519_verifying_key, random_bytes32};

verus! {

broadcast use vstd::std_specs::hash::group_hash_axioms;

/// Domain-separation label hashed into every derived signing key.
pub open spec fn signing_label() -> Seq<u8> {
    seq![116u8, 97u8, 99u8, 116u8, 105u8, 99u8, 97u8, 108u8, 109u8, 101u8, 115u8, 104u8, 45u8, 115u8, 105u8, 103u8, 110u8, 105u8, 110u8, 103u8, 45u8, 107u8, 101u8, 121u8, 45u8, 118u8, 49u8]
}

/// The label as bytes.
fn signing_label_bytes() -> (r: [u8; 27])
    ensures
        r@ == signing_label(),
{
    let r = [116u8, 97u8, 99u8, 116u8, 105u8, 99u8, 97u8, 108u8, 109u8, 101u8, 115u8, 104u8, 45u8, 115u8, 105u8, 103u8, 110u8, 105u8, 110u8, 103u8, 45u8, 107u8, 101u8, 121u8, 45u8, 118u8, 49u8];
    assert(r@ =~= signing_label());
    r
}

/// The signing secret derived for `node_id` from the shared `psk`.
pub open spec fn derived_secret(node_id: u8, psk: Seq<u8>) -> Seq<u8> {
    blake3_digest(signing_label() + seq![node_id] + psk)
}

/// A node's keys: an Ed25519 secret and its verifying key, plus the shared
/// XChaCha20 session key.
pub struct Identity {
    pub node_id: u8,
    /// Ed25519 secret key bytes.
    pub signing_key: [u8; 32],
    /// Compressed Ed25519 verifying key of `signing_key`.
    pub verifying_key: [u8; 32],
    /// Pre-shared key for payload encryption.
    pub session_key: [u8; 32],
}

impl Identity {
    /// The verifying key belongs to the signing key.
    pub open spec fn wf(&self) -> bool {
        self.verifying_key@ == ed25519_public(self.signing_key@)
    }

    /// A fresh identity with random signing and session keys.
    pub fn generate(node_id: u8) -> (r: Identity)
        ensures
            r.node_id == node_id,
            r.wf(),
    {
        let signing_key = random_bytes32();
        let session_key = random_bytes32();
        Self::from_parts(node_id, signing_key, session_key)
    }

    /// Builds an identity from a secret key, computing its verifying key.
    pub fn from_parts(node_id: u8, signing_key: [u8; 32], session_key: [u8; 32]) -> (r: Identity)
        ensures
            r.node_id == node_id,
            r.signing_key == signing_key,
            r.session_key == session_key,
            r.wf(),
    {
        let verifying_key = ed25519_verifying_key(&signing_key);
        Identity { node_id, signing_key, verifying_key, session_key }
    }

    /// Deterministic identity from `node_id` and the shared `psk`: the signing key
    /// is the BLAKE3 hash of `label || node_id || psk`, unique per node, while all
    /// nodes share `psk` as the session key.
    pub fn from_seed(node_id: u8, psk: &[u8; 32]) -> (r: Identity)
        ensures
            r.node_id == node_id,
            r.signing_key@ == derived_secret(node_id, psk@),
            r.session_key == *psk,
            r.wf(),
    {
        let label = signing_label_bytes();
        let mut input: Vec<u8> = Vec::new();
        let mut i: usize = 0;
        while i < 27
            invariant
                0 <= i <= 27,
                label@ == signing_label(),
                input@ == signing_label().subrange(0, i as int),
            decreases 27 - i,
        {
            input.push(label[i]);
            assert(input@ =~= signing_label().subrange(0, i + 1));
            i = i + 1;
        }
        input.push(node_id);
        let mut j: usize = 0;
        while j < 32
            invariant
                0 <= j <= 32,
                input@ == signing_label() + seq![node_id] + psk@.subrange(0, j as int),
            decreases 32 - j,
        {
            input.push(psk[j]);
            assert(input@ =~= signing_label() + seq![node_id] + psk@.subrange(0, j + 1));
            j = j + 1;
        }
        assert(psk@.subrange(0, 32) =~= psk@);
        let seed = blake3_hash(input.as_slice());
        Self::from_parts(node_id, seed, *psk)
    }
}

/// Mission certificate registry: node id to Ed25519 verifying key.
pub struct PubkeyStore {
    keys: HashMap<u8, [u8; 32]>,
}

impl View for PubkeyStore {
    type V = Map<u8, [u8; 32]>;

    closed spec fn view(&self) -> Map<u8, [u8; 32]> {
        self.keys@
    }
}

impl Default for PubkeyStore {
    /// An empty registry.
    fn default() -> (r: PubkeyStore)
        ensures
            r@ == Map::<u8, [u8; 32]>::empty(),
    {
        PubkeyStore::new()
    }
}

impl PubkeyStore {
    /// An empty registry.
    pub fn new() -> (r: PubkeyStore)
        ensures
            r@ == Map::<u8, [u8; 32]>::empty(),
    {
        PubkeyStore { keys: HashMap::new() }
    }

    /// Registers (or replaces) the key of `node_id`.
    pub fn insert(&mut self, node_id: u8, key: [u8; 32])
        ensures
            final(self)@ == old(self)@.insert(node_id, key),
    {
        self.keys.insert(node_id, key);
    }

    /// The key registered for `node_id`, if any.
    pub fn get(&self, node_id: u8) -> (r: Option<&[u8; 32]>)
        ensures
            r is Some <==> self@.contains_key(node_id),
            r matches Some(k) ==> *k == self@[node_id],
    {
        self.keys.get(&node_id)
    }
}

} // verus!
