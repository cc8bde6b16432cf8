use std::collections::VecDeque;

use vstd::prelude::*;

use crate::priority::Priority;

verus! {

/// Length of the jam-detection window.
pub const JAM_WINDOW_MS: u64 = 500;
/// More Bulk frames than this in one window, with no High frame, means jamming
/// (300 frames per second over the window).
pub const JAM_BULK_THRESHOLD: usize = 150;

/// Milliseconds from `ts` to `now`, 0 when `ts` is later.
pub open spec fn age(now: u64, ts: u64) -> int {
    if now >= ts { now - ts } else { 0 }
}

/// `s` without its leading entries older than the window at `now`.
pub open spec fn evict_spec(s: Seq<(u64, Priority)>, now: u64) -> Seq<(u64, Priority)>
    decreases s.len(),
{
    if s.len() > 0 && age(now, s[0].0) > JAM_WINDOW_MS {
        evict_spec(s.drop_first(), now)
    } else {
        s
    }
}

/// Eviction keeps exactly the recent frames: for a window in time order with
/// no entry later than `now`, the entries dropped are a prefix, each more than
/// `JAM_WINDOW_MS` before `now`, and every entry kept is at most
/// `JAM_WINDOW_MS` before `now`.
pub proof fn lemma_evict_window(s: Seq<(u64, Priority)>, now: u64)
    requires
        forall|i: int, j: int| 0 <= i < j < s.len() ==> (#[trigger] s[i]).0 <= (#[trigger] s[j]).0,
        forall|i: int| 0 <= i < s.len() ==> (#[trigger] s[i]).0 <= now,
    ensures
        exists|k: int| 0 <= k <= s.len() && evict_spec(s, now) == s.skip(k)
            && forall|i: int| 0 <= i < k ==> now - (#[trigger] s[i]).0 > JAM_WINDOW_MS,
        forall|i: int| 0 <= i < evict_spec(s, now).len() ==> now - (#[trigger] evict_spec(s, now)[i]).0 <= JAM_WINDOW_MS,
    decreases s.len(),
{
    if s.len() > 0 && now - s[0].0 > JAM_WINDOW_MS {
        let t = s.drop_first();
        assert forall|i: int, j: int| 0 <= i < j < t.len() implies (#[trigger] t[i]).0 <= (#[trigger] t[j]).0 by {
            assert(t[i] == s[i + 1] && t[j] == s[j + 1]);
        }
        assert forall|i: int| 0 <= i < t.len() implies (#[trigger] t[i]).0 <= now by {
            assert(t[i] == s[i + 1]);
        }
        lemma_evict_window(t, now);
        let k = choose|k: int| 0 <= k <= t.len() && evict_spec(t, now) == t.skip(k)
            && forall|i: int| 0 <= i < k ==> now - (#[trigger] t[i]).0 > JAM_WINDOW_MS;
        assert(t.skip(k) =~= s.skip(k + 1));
        assert forall|i: int| 0 <= i < k + 1 implies now - (#[trigger] s[i]).0 > JAM_WINDOW_MS by {
            if i > 0 {
                assert(s[i] == t[i - 1]);
            }
        }
    } else {
        assert(s.skip(0) =~= s);
        if s.len() > 0 {
            assert forall|i: int| 0 <= i < s.len() implies now - (#[trigger] s[i]).0 <= JAM_WINDOW_MS by {
                assert(s[0].0 <= s[i].0 || i == 0);
            }
        }
    }
}

/// Number of entries of priority `p`.
pub open spec fn count_prio(s: Seq<(u64, Priority)>, p: Priority) -> nat
    decreases s.len(),
{
    if s.len() == 0 {
        0
    } else {
        count_prio(s.drop_last(), p) + if s.last().1 == p { 1nat } else { 0nat }
    }
}

/// The jamming heuristic: frames in the window, none of them High (no HELLO
/// gets through), and more than `JAM_BULK_THRESHOLD` Bulk ones.
pub open spec fn jammed_spec(s: Seq<(u64, Priority)>) -> bool {
    s.len() > 0 && count_prio(s, Priority::High) == 0 && count_prio(s, Priority::Bulk) > JAM_BULK_THRESHOLD
}

/// The received frames of the last `JAM_WINDOW_MS`, as (time, priority), oldest first.
pub struct JamWindow {
    entries: VecDeque<(u64, Priority)>,
}

impl View for JamWindow {
    type V = Seq<(u64, Priority)>;

    closed spec fn view(&self) -> Seq<(u64, Priority)> {
        self.entries@
    }
}

impl JamWindow {
    /// An empty window.
    pub fn new() -> (r: JamWindow)
        ensures
            r@ == Seq::<(u64, Priority)>::empty(),
    {
        JamWindow { entries: VecDeque::new() }
    }

    /// Records a frame of priority `prio` received at `now_ms`, then evicts.
    pub fn record(&mut self, prio: Priority, now_ms: u64)
        ensures
            final(self)@ == evict_spec(old(self)@.push((now_ms, prio)), now_ms),
    {
        self.entries.push_back((now_ms, prio));
        self.evict(now_ms);
    }

    /// Drops the leading entries older than the window at `now_ms`.
    pub fn evict(&mut self, now_ms: u64)
        ensures
            final(self)@ == evict_spec(old(self)@, now_ms),
    {
        while self.entries.len() > 0
            invariant
                evict_spec(self@, now_ms) == evict_spec(old(self)@, now_ms),
            ensures
                evict_spec(self@, now_ms) == evict_spec(old(self)@, now_ms),
                self@.len() == 0 || age(now_ms, self@[0].0) <= JAM_WINDOW_MS,
            decreases self@.len(),
        {
            let ts = self.entries[0].0;
            let a: u64 = if now_ms >= ts { now_ms - ts } else { 0 };
            if a > JAM_WINDOW_MS {
                let ghost before = self@;
                let _ = self.entries.pop_front();
                assert(self@ =~= before.drop_first());
            } else {
                break;
            }
        }
        assert(evict_spec(self@, now_ms) == self@);
    }

    /// Whether the window looks jammed (see `jammed_spec`).
    pub fn is_jammed(&self) -> (r: bool)
        ensures
            r == jammed_spec(self@),
    {
        let n = self.entries.len();
        if n == 0 {
            return false;
        }
        let mut high: usize = 0;
        let mut bulk: usize = 0;
        let mut i: usize = 0;
        while i < n
            invariant
                n == self@.len(),
                i <= n,
                high == count_prio(self@.take(i as int), Priority::High),
                bulk == count_prio(self@.take(i as int), Priority::Bulk),
                high <= i,
                bulk <= i,
            decreases n - i,
        {
            assert(self@.take(i + 1).drop_last() =~= self@.take(i as int));
            let p = self.entries[i].1;
            match p {
                Priority::High => high = high + 1,
                Priority::Bulk => bulk = bulk + 1,
                _ => {},
            }
            i = i + 1;
        }
        assert(self@.take(n as int) =~= self@);
        high == 0 && bulk > JAM_BULK_THRESHOLD
    }
}

} // verus!
