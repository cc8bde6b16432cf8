use vstd::prelude::*;

use crate::errors::FrameError;

verus! {

/// Largest accepted distance between a frame's timestamp and local time.
pub const TIME_WINDOW_MS: u64 = 30_000;
/// How long an accepted `(src, timestamp, nonce)` triple is remembered.
pub const NONCE_CACHE_TTL_MS: u64 = 60_000;

/// One remembered triple and the local time at which it was accepted.
#[derive(Clone, Copy, Debug)]
pub struct NonceEntry {
    pub src: u8,
    pub ts_ms: u64,
    pub nonce: [u8; 12],
    pub inserted_at: u64,
}

/// `|a - b|` on unsigned integers.
pub open spec fn abs_diff(a: u64, b: u64) -> nat {
    if a >= b { (a - b) as nat } else { (b - a) as nat }
}

/// `a - b`, or 0 when `b > a`.
pub open spec fn sat_sub(a: u64, b: u64) -> nat {
    if a >= b { (a - b) as nat } else { 0 }
}

/// Whether `e` remembers the triple `(src, ts, nonce)`.
pub open spec fn entry_has_key(e: NonceEntry, src: u8, ts: u64, nonce: Seq<u8>) -> bool {
    e.src == src && e.ts_ms == ts && e.nonce@ == nonce
}

/// Whether some entry of `s` remembers the triple.
pub open spec fn seen_key(s: Seq<NonceEntry>, src: u8, ts: u64, nonce: Seq<u8>) -> bool {
    exists|i: int| 0 <= i < s.len() && entry_has_key(#[trigger] s[i], src, ts, nonce)
}

/// Whether an entry is not older than the cache lifetime at `now`.
pub open spec fn entry_fresh(now: u64, e: NonceEntry) -> bool {
    sat_sub(now, e.inserted_at) <= NONCE_CACHE_TTL_MS
}

/// The entries kept at `now`, oldest first.
pub open spec fn evict_stale(s: Seq<NonceEntry>, now: u64) -> Seq<NonceEntry> {
    s.filter(|e: NonceEntry| entry_fresh(now, e))
}

/// Replay-protection cache of recently accepted `(src, timestamp, nonce)` triples.
pub struct NonceCache {
    seen: Vec<NonceEntry>,
}

impl View for NonceCache {
    type V = Seq<NonceEntry>;

    closed spec fn view(&self) -> Seq<NonceEntry> {
        self.seen@
    }
}

/// Compares two 12-byte nonces.
pub fn nonce_eq(a: &[u8; 12], b: &[u8; 12]) -> (r: bool)
    ensures
        r == (a@ == b@),
{
    let mut i: usize = 0;
    while i < 12
        invariant
            0 <= i <= 12,
            forall|j: int| 0 <= j < i ==> a@[j] == b@[j],
        decreases 12 - i,
    {
        if a[i] != b[i] {
            return false;
        }
        i = i + 1;
    }
    assert(a@ =~= b@);
    true
}

impl Default for NonceCache {
    /// An empty cache.
    fn default() -> (r: NonceCache)
        ensures
            r@ == Seq::<NonceEntry>::empty(),
    {
        NonceCache::new()
    }
}

impl NonceCache {
    /// An empty cache.
    pub fn new() -> (r: NonceCache)
        ensures
            r@ == Seq::<NonceEntry>::empty(),
    {
        NonceCache { seen: Vec::new() }
    }

    /// Rejects the frame if its timestamp is more than `TIME_WINDOW_MS` away from
    /// local time, or if the `(src, ts, nonce)` triple was already accepted.
    /// Otherwise evicts entries older than `NONCE_CACHE_TTL_MS` and remembers the
    /// triple with the current local time.
    pub fn check_and_insert(&mut self, src: u8, ts_ms: u64, nonce: &[u8; 12], local_time_ms: u64) -> (r: Result<(), FrameError>)
        ensures
            abs_diff(local_time_ms, ts_ms) > TIME_WINDOW_MS ==> r == Err::<(), FrameError>(FrameError::TimeWindowExpired)
                && final(self)@ == old(self)@,
            abs_diff(local_time_ms, ts_ms) <= TIME_WINDOW_MS && seen_key(old(self)@, src, ts_ms, nonce@)
                ==> r == Err::<(), FrameError>(FrameError::ReplayedNonce) && final(self)@ == old(self)@,
            abs_diff(local_time_ms, ts_ms) <= TIME_WINDOW_MS && !seen_key(old(self)@, src, ts_ms, nonce@)
                ==> r is Ok && final(self)@ == evict_stale(old(self)@, local_time_ms).push(
                    NonceEntry { src, ts_ms, nonce: *nonce, inserted_at: local_time_ms },
                ),
    {
        let diff = if local_time_ms >= ts_ms { local_time_ms - ts_ms } else { ts_ms - local_time_ms };
        if diff > TIME_WINDOW_MS {
            return Err(FrameError::TimeWindowExpired);
        }
        let n = self.seen.len();
        let mut i: usize = 0;
        while i < n
            invariant
                n == self.seen@.len(),
                self@ == old(self)@,
                abs_diff(local_time_ms, ts_ms) <= TIME_WINDOW_MS,
                0 <= i <= n,
                forall|j: int| 0 <= j < i ==> !entry_has_key(#[trigger] self.seen@[j], src, ts_ms, nonce@),
            decreases n - i,
        {
            let e = &self.seen[i];
            if e.src == src && e.ts_ms == ts_ms && nonce_eq(&e.nonce, nonce) {
                return Err(FrameError::ReplayedNonce);
            }
            i = i + 1;
        }
        let ghost old_seen = self.seen@;
        let mut kept: Vec<NonceEntry> = Vec::new();
        let mut j: usize = 0;
        while j < n
            invariant
                n == old_seen.len(),
                self.seen@ == old_seen,
                0 <= j <= n,
                abs_diff(local_time_ms, ts_ms) <= TIME_WINDOW_MS,
                !seen_key(old_seen, src, ts_ms, nonce@),
                kept@ == evict_stale(old_seen.take(j as int), local_time_ms),
            decreases n - j,
        {
            reveal_with_fuel(Seq::<_>::filter, 1);
            let e = self.seen[j];
            let age = if local_time_ms >= e.inserted_at { local_time_ms - e.inserted_at } else { 0 };
            assert(entry_fresh(local_time_ms, e) == (age <= NONCE_CACHE_TTL_MS));
            if age <= NONCE_CACHE_TTL_MS {
                kept.push(e);
            }
            assert(old_seen.take(j + 1).drop_last() =~= old_seen.take(j as int));
            assert(old_seen.take(j + 1).last() == e);
            j = j + 1;
        }
        assert(old_seen.take(n as int) =~= old_seen);
        kept.push(NonceEntry { src, ts_ms, nonce: *nonce, inserted_at: local_time_ms });
        self.seen = kept;
        Ok(())
    }
}

/// An accepted triple is never evicted while its timestamp is still inside the
/// window: it was accepted within `TIME_WINDOW_MS` of its timestamp, so at any
/// local time also within the window it is at most `NONCE_CACHE_TTL_MS` old.
pub proof fn lemma_kept_while_in_window(e: NonceEntry, now: u64)
    requires
        abs_diff(e.inserted_at, e.ts_ms) <= TIME_WINDOW_MS,
        abs_diff(now, e.ts_ms) <= TIME_WINDOW_MS,
    ensures
        entry_fresh(now, e),
{
}

/// A triple that was just accepted is rejected as a replay when it arrives
/// again, while the timestamp is still inside the window.
pub proof fn lemma_accepted_triple_is_remembered(
    before: Seq<NonceEntry>, src: u8, ts: u64, nonce: [u8; 12], now: u64,
)
    ensures
        seen_key(
            evict_stale(before, now).push(NonceEntry { src, ts_ms: ts, nonce, inserted_at: now }),
            src, ts, nonce@,
        ),
{
    let after = evict_stale(before, now).push(NonceEntry { src, ts_ms: ts, nonce, inserted_at: now });
    assert(entry_has_key(after[after.len() - 1], src, ts, nonce@));
}

} // verus!
