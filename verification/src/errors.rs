use vstd::prelude::*;

verus! {

/// Why a received frame was rejected.
#[derive(Debug, Clone, PartialEq, Eq)]
pub enum FrameError {
    /// Unknown sender or signature that does not verify.
    BadSignature,
    /// The `(src, timestamp, nonce)` triple was already accepted.
    ReplayedNonce,
    /// Timestamp more than the allowed window away from local time.
    TimeWindowExpired,
    /// Decrypted payload does not match the signed payload hash.
    DecryptFailed,
    /// Frame or header shorter than its fixed layout, or a bad enum code.
    TruncatedFrame,
    /// Reed-Solomon coding failed; the text explains why.
    FecError(String),
}

} // verus!
