use std::collections::{HashMap, HashSet};

use vstd::prelude::*;

use crate::crypto::unix_now_ms;
use crate::routing::routes_correct;

verus! {

broadcast use vstd::std_specs::hash::group_hash_axioms;

/// Interval between HELLO broadcasts.
pub const HELLO_INTERVAL_MS: u64 = 1_000;
/// Interval between TC broadcasts.
pub const TC_INTERVAL_MS: u64 = 2_000;
/// A neighbor not heard from for longer than this is dropped.
pub const NEIGHBOR_TIMEOUT_MS: u64 = 3_000;
/// Period of the neighbor aging check.
pub const AGING_TICK_MS: u64 = 500;
/// A TC whose sequence number lies this close behind the last one seen is a duplicate.
pub const TC_DUP_WINDOW: u16 = 100;

/// Measured quality of a radio link.
#[derive(Clone, Copy, Debug, PartialEq, Eq, Structural)]
pub struct LinkQuality {
    pub rssi_dbm: i8,
    /// Packet loss in percent (0 to 100).
    pub loss_rate_x100: u8,
    pub mcs: u8,
}

impl Default for LinkQuality {
    fn default() -> (r: LinkQuality)
        ensures
            r == (LinkQuality { rssi_dbm: -80i8, loss_rate_x100: 0, mcs: 0 }),
    {
        LinkQuality { rssi_dbm: -80, loss_rate_x100: 0, mcs: 0 }
    }
}

/// A HELLO: the sender and its 1-hop neighbors with the quality it sees.
#[derive(Clone, Debug)]
pub struct Hello {
    pub sender: u8,
    pub neighbors: Vec<(u8, LinkQuality)>,
    pub sent_at_ms: u64,
}

/// A topology control message: the sender's advertised neighbor set.
#[derive(Clone, Debug)]
pub struct Tc {
    pub sender: u8,
    pub seq: u16,
    pub advertised_neighbors: Vec<(u8, LinkQuality)>,
    pub sent_at_ms: u64,
}

/// The payload of an OLSR control frame.
#[derive(Clone, Debug)]
pub enum OlsrMessage {
    Hello(Hello),
    Tc(Tc),
}

/// The route to one destination.
#[derive(Clone, Copy, Debug, PartialEq, Eq, Structural)]
pub struct RouteEntry {
    pub destination: u8,
    pub next_hop: u8,
    pub cost: u32,
    pub hop_count: u8,
}

/// A 1-hop neighbor.
#[derive(Clone, Debug)]
pub struct NeighborEntry {
    pub node_id: u8,
    pub link_quality: LinkQuality,
    /// Local time of the last HELLO heard from it.
    pub last_hello_ms: u64,
    /// The neighbor ids listed in its last HELLO.
    pub last_seen_neighbors: Vec<u8>,
}

/// Base cost of a modulation and coding scheme: faster is cheaper.
pub open spec fn mcs_base(mcs: u8) -> int {
    if mcs == 0 {
        100
    } else if mcs == 1 {
        90
    } else if mcs == 2 {
        80
    } else if mcs == 3 {
        70
    } else if mcs == 4 {
        60
    } else {
        50
    }
}

/// Cost of a link (lower is better): MCS base, plus 10 per percent loss, plus 2
/// per dB below -30 dBm.
pub open spec fn link_cost_spec(q: LinkQuality) -> int {
    let rssi_excess = -q.rssi_dbm - 30;
    mcs_base(q.mcs) + q.loss_rate_x100 * 10 + if rssi_excess > 0 { rssi_excess * 2 } else { 0 }
}

/// Largest possible link cost.
pub const MAX_LINK_COST: u32 = 2846;

/// Lower cost means a better link; used by the route computation.
pub fn link_cost(q: &LinkQuality) -> (r: u32)
    ensures
        r == link_cost_spec(*q),
        50 <= r <= MAX_LINK_COST,
{
    let base: u32 = match q.mcs {
        0 => 100,
        1 => 90,
        2 => 80,
        3 => 70,
        4 => 60,
        _ => 50,
    };
    let loss_penalty = (q.loss_rate_x100 as u32) * 10;
    let neg: i32 = -(q.rssi_dbm as i32);
    let excess: i32 = neg - 30;
    let rssi_penalty: u32 = if excess > 0 { (excess as u32) * 2 } else { 0 };
    base + loss_penalty + rssi_penalty
}

/// Whether a TC with sequence `seq` is a duplicate given the last sequence
/// number `last` seen from its sender: at or up to 99 steps behind it, counting
/// modulo 2^16 (so sequence numbers may wrap around).
pub open spec fn tc_is_duplicate(seq: u16, last: u16) -> bool {
    (last - seq) % 0x1_0000 < TC_DUP_WINDOW
}

/// The link-state map a TC advertises: its entries in order, later ones
/// replacing earlier ones, the local node left out.
pub open spec fn advertised_map(adv: Seq<(u8, LinkQuality)>, local: u8) -> Map<u8, LinkQuality>
    decreases adv.len(),
{
    if adv.len() == 0 {
        Map::empty()
    } else {
        let prev = advertised_map(adv.drop_last(), local);
        if adv.last().0 != local {
            prev.insert(adv.last().0, adv.last().1)
        } else {
            prev
        }
    }
}

/// OLSR-lite protocol state of one node.
pub struct OlsrState {
    pub local_id: u8,
    /// 1-hop neighbors discovered through HELLOs.
    pub neighbors: HashMap<u8, NeighborEntry>,
    /// 2-hop node to the 1-hop gateways that reach it.
    pub two_hop: HashMap<u8, HashSet<u8>>,
    /// Link-state database from TCs: sender to (neighbor to quality).
    pub topology: HashMap<u8, HashMap<u8, LinkQuality>>,
    /// Shortest-path routes: destination to route.
    pub routes: HashMap<u8, RouteEntry>,
    /// Last TC sequence number processed per sender.
    pub last_tc_seq: HashMap<u8, u16>,
}

/// The MCS a HELLO reports for the link to `local` (its first entry for
/// `local`), 0 when it lists no such entry.
pub open spec fn reported_mcs(nbrs: Seq<(u8, LinkQuality)>, local: u8) -> u8
    decreases nbrs.len(),
{
    if nbrs.len() == 0 {
        0
    } else if nbrs[0].0 == local {
        nbrs[0].1.mcs
    } else {
        reported_mcs(nbrs.drop_first(), local)
    }
}

/// Whether `t` is listed in a HELLO's neighbor list.
pub open spec fn listed(nbrs: Seq<(u8, LinkQuality)>, t: u8) -> bool {
    exists|i: int| 0 <= i < nbrs.len() && (#[trigger] nbrs[i]).0 == t
}

/// The 2-hop gateway sets of a state.
pub open spec fn gateway_sets(m: Map<u8, HashSet<u8>>) -> Map<u8, Set<u8>> {
    m.map_values(|s: HashSet<u8>| s@)
}

/// The gateways of 2-hop node `t` after a HELLO from `node` listing `nbrs`:
/// `node` is dropped as a gateway everywhere, then added back for every listed
/// node other than `local` that is not a 1-hop neighbor (`known`, the neighbor
/// table after the HELLO).
pub open spec fn gateways_after(
    old_sets: Map<u8, Set<u8>>, nbrs: Seq<(u8, LinkQuality)>, local: u8, known: Map<u8, NeighborEntry>, node: u8, t: u8,
) -> Set<u8> {
    let kept = if old_sets.contains_key(t) { old_sets[t].remove(node) } else { Set::empty() };
    if listed(nbrs, t) && t != local && !known.contains_key(t) {
        kept.insert(node)
    } else {
        kept
    }
}

/// The neighbor entry a HELLO from `hello.sender` creates.
pub open spec fn hello_entry_ok(e: NeighborEntry, hello: Hello, local: u8, rssi_dbm: i8, now: u64) -> bool {
    &&& e.node_id == hello.sender
    &&& e.link_quality == (LinkQuality { rssi_dbm, loss_rate_x100: 0, mcs: reported_mcs(hello.neighbors@, local) })
    &&& e.last_hello_ms == now
    &&& e.last_seen_neighbors@ == hello.neighbors@.map_values(|p: (u8, LinkQuality)| p.0)
}

/// `new` is `old` after processing `hello` (received at `rssi_dbm`) at time `now`.
pub open spec fn hello_applied(old: &OlsrState, new: &OlsrState, hello: Hello, rssi_dbm: i8, now: u64) -> bool {
    &&& new.local_id == old.local_id
    &&& new.topology@ == old.topology@
    &&& new.last_tc_seq@ == old.last_tc_seq@
    &&& if hello.sender == old.local_id {
        &&& new.neighbors@ == old.neighbors@
        &&& new.two_hop@ == old.two_hop@
        &&& new.routes@ == old.routes@
    } else {
        &&& new.neighbors@.dom() == old.neighbors@.dom().insert(hello.sender)
        &&& forall|k: u8| k != hello.sender && #[trigger] old.neighbors@.contains_key(k) ==> new.neighbors@[k] == old.neighbors@[k]
        &&& hello_entry_ok(new.neighbors@[hello.sender], hello, old.local_id, rssi_dbm, now)
        &&& forall|t: u8| {
            let g = gateways_after(gateway_sets(old.two_hop@), hello.neighbors@, old.local_id, new.neighbors@, hello.sender, t);
            &&& #[trigger] new.two_hop@.contains_key(t) <==> !g.is_empty()
            &&& new.two_hop@.contains_key(t) ==> new.two_hop@[t]@ == g
        }
        &&& routes_correct(new)
    }
}

/// Whether `g` is recorded as a gateway to 2-hop node `x`.
pub open spec fn is_gateway(two_hop: Map<u8, HashSet<u8>>, x: u8, g: u8) -> bool {
    two_hop.contains_key(x) && two_hop[x]@.contains(g)
}

/// The 2-hop table after a HELLO from another node `s`: `s` is a gateway to
/// exactly the nodes its HELLO lists that are neither this node nor a 1-hop
/// neighbor; every other gateway entry is as before; no set is left empty.
pub proof fn lemma_hello_two_hop(old: &OlsrState, new: &OlsrState, hello: Hello, rssi_dbm: i8, now: u64)
    requires
        hello_applied(old, new, hello, rssi_dbm, now),
        hello.sender != old.local_id,
    ensures
        forall|x: u8| #[trigger] is_gateway(new.two_hop@, x, hello.sender) <==> (listed(hello.neighbors@, x)
            && x != old.local_id && !new.neighbors@.contains_key(x)),
        forall|x: u8, g: u8| g != hello.sender ==> (#[trigger] is_gateway(new.two_hop@, x, g) <==> is_gateway(old.two_hop@, x, g)),
        forall|x: u8| #[trigger] new.two_hop@.contains_key(x) ==> !new.two_hop@[x]@.is_empty(),
{
    let s = hello.sender;
    let old_sets = gateway_sets(old.two_hop@);
    assert forall|x: u8| #[trigger] is_gateway(new.two_hop@, x, s) <==> (listed(hello.neighbors@, x)
        && x != old.local_id && !new.neighbors@.contains_key(x)) by {
        let g = gateways_after(old_sets, hello.neighbors@, old.local_id, new.neighbors@, s, x);
        assert(new.two_hop@.contains_key(x) <==> !g.is_empty());
        if listed(hello.neighbors@, x) && x != old.local_id && !new.neighbors@.contains_key(x) {
            assert(g.contains(s));
        }
    }
    assert forall|x: u8, gw: u8| gw != s implies (#[trigger] is_gateway(new.two_hop@, x, gw) <==> is_gateway(old.two_hop@, x, gw)) by {
        let g = gateways_after(old_sets, hello.neighbors@, old.local_id, new.neighbors@, s, x);
        assert(new.two_hop@.contains_key(x) <==> !g.is_empty());
        if old.two_hop@.contains_key(x) {
            assert(old_sets[x] == old.two_hop@[x]@);
        }
        if is_gateway(old.two_hop@, x, gw) {
            assert(g.contains(gw));
        }
    }
    assert forall|x: u8| #[trigger] new.two_hop@.contains_key(x) implies !new.two_hop@[x]@.is_empty() by {
        let g = gateways_after(old_sets, hello.neighbors@, old.local_id, new.neighbors@, s, x);
        assert(new.two_hop@.contains_key(x) <==> !g.is_empty());
    }
}

/// The MCS recorded for a link is what the HELLO reports for its link to us:
/// that of its first entry naming the local node, and 0 when none does.
pub proof fn lemma_reported_mcs_first_entry(nbrs: Seq<(u8, LinkQuality)>, local: u8, i: int)
    requires
        0 <= i <= nbrs.len(),
        forall|j: int| 0 <= j < i ==> (#[trigger] nbrs[j]).0 != local,
        i == nbrs.len() || nbrs[i].0 == local,
    ensures
        i < nbrs.len() ==> reported_mcs(nbrs, local) == nbrs[i].1.mcs,
        i == nbrs.len() ==> reported_mcs(nbrs, local) == 0,
    decreases i,
{
    if i > 0 {
        let t = nbrs.drop_first();
        assert forall|j: int| 0 <= j < i - 1 implies (#[trigger] t[j]).0 != local by {
            assert(t[j] == nbrs[j + 1]);
        }
        assert(nbrs[0].0 != local);
        if i < nbrs.len() {
            assert(t[i - 1] == nbrs[i]);
        }
        lemma_reported_mcs_first_entry(t, local, i - 1);
    }
}

proof fn lemma_reported_mcs_skip(nbrs: Seq<(u8, LinkQuality)>, local: u8, i: int)
    requires
        0 <= i <= nbrs.len(),
        forall|j: int| 0 <= j < i ==> (#[trigger] nbrs[j]).0 != local,
    ensures
        reported_mcs(nbrs, local) == reported_mcs(nbrs.skip(i), local),
    decreases i,
{
    if i > 0 {
        let t = nbrs.drop_first();
        assert forall|j: int| 0 <= j < i - 1 implies (#[trigger] t[j]).0 != local by {
            assert(t[j] == nbrs[j + 1]);
        }
        lemma_reported_mcs_skip(t, local, i - 1);
        assert(t.skip(i - 1) =~= nbrs.skip(i));
        assert(nbrs[0].0 != local);
    } else {
        assert(nbrs.skip(0) =~= nbrs);
    }
}

/// The MCS a HELLO reports for the link to `local`.
fn hello_mcs(nbrs: &Vec<(u8, LinkQuality)>, local: u8) -> (r: u8)
    ensures
        r == reported_mcs(nbrs@, local),
{
    let mut i: usize = 0;
    while i < nbrs.len()
        invariant
            i <= nbrs@.len(),
            forall|j: int| 0 <= j < i ==> (#[trigger] nbrs@[j]).0 != local,
        decreases nbrs@.len() - i,
    {
        if nbrs[i].0 == local {
            proof {
                lemma_reported_mcs_skip(nbrs@, local, i as int);
                assert(nbrs@.skip(i as int)[0] == nbrs@[i as int]);
            }
            return nbrs[i].1.mcs;
        }
        i = i + 1;
    }
    proof {
        lemma_reported_mcs_skip(nbrs@, local, i as int);
        assert(nbrs@.skip(i as int).len() == 0);
    }
    0
}

/// The node ids of a HELLO's neighbor list, in order.
fn hello_ids(nbrs: &Vec<(u8, LinkQuality)>) -> (r: Vec<u8>)
    ensures
        r@ == nbrs@.map_values(|p: (u8, LinkQuality)| p.0),
{
    let mut ids: Vec<u8> = Vec::new();
    let mut i: usize = 0;
    while i < nbrs.len()
        invariant
            i <= nbrs@.len(),
            ids@ == nbrs@.take(i as int).map_values(|p: (u8, LinkQuality)| p.0),
        decreases nbrs@.len() - i,
    {
        ids.push(nbrs[i].0);
        assert(ids@ =~= nbrs@.take(i + 1).map_values(|p: (u8, LinkQuality)| p.0));
        i = i + 1;
    }
    assert(nbrs@.take(nbrs@.len() as int) =~= nbrs@);
    ids
}

impl OlsrState {
    /// Removes `node` from every 2-hop gateway set, dropping sets left empty.
    fn drop_gateway(&mut self, node: u8)
        ensures
            final(self).local_id == old(self).local_id,
            final(self).neighbors@ == old(self).neighbors@,
            final(self).topology@ == old(self).topology@,
            final(self).routes@ == old(self).routes@,
            final(self).last_tc_seq@ == old(self).last_tc_seq@,
            forall|t: u8| {
                let kept = if old(self).two_hop@.contains_key(t) { old(self).two_hop@[t]@.remove(node) } else { Set::<u8>::empty() };
                &&& #[trigger] final(self).two_hop@.contains_key(t) <==> !kept.is_empty()
                &&& final(self).two_hop@.contains_key(t) ==> final(self).two_hop@[t]@ == kept
            },
    {
        let ghost old_map = self.two_hop@;
        let mut t: usize = 0;
        while t < 256
            invariant
                t <= 256,
                self.local_id == old(self).local_id,
                self.neighbors@ == old(self).neighbors@,
                self.topology@ == old(self).topology@,
                self.routes@ == old(self).routes@,
                self.last_tc_seq@ == old(self).last_tc_seq@,
                old_map == old(self).two_hop@,
                forall|x: u8| x >= t ==> (#[trigger] self.two_hop@.contains_key(x) <==> old_map.contains_key(x))
                    && (self.two_hop@.contains_key(x) ==> self.two_hop@[x] == old_map[x]),
                forall|x: u8| x < t ==> {
                    let kept = if old_map.contains_key(x) { old_map[x]@.remove(node) } else { Set::<u8>::empty() };
                    &&& #[trigger] self.two_hop@.contains_key(x) <==> !kept.is_empty()
                    &&& self.two_hop@.contains_key(x) ==> self.two_hop@[x]@ == kept
                },
            decreases 256 - t,
        {
            let key = t as u8;
            match self.two_hop.remove(&key) {
                Some(mut set) => {
                    set.remove(&node);
                    if !set.is_empty() {
                        self.two_hop.insert(key, set);
                    }
                },
                None => {},
            }
            t = t + 1;
        }
    }

    /// Records `node` as a gateway to every node listed in `nbrs` other than
    /// the local node that is not a 1-hop neighbor.
    fn add_gateways(&mut self, nbrs: &Vec<(u8, LinkQuality)>, node: u8)
        ensures
            final(self).local_id == old(self).local_id,
            final(self).neighbors@ == old(self).neighbors@,
            final(self).topology@ == old(self).topology@,
            final(self).routes@ == old(self).routes@,
            final(self).last_tc_seq@ == old(self).last_tc_seq@,
            forall|t: u8| {
                let base = if old(self).two_hop@.contains_key(t) { old(self).two_hop@[t]@ } else { Set::<u8>::empty() };
                let g = if listed(nbrs@, t) && t != old(self).local_id && !old(self).neighbors@.contains_key(t) {
                    base.insert(node)
                } else {
                    base
                };
                &&& #[trigger] final(self).two_hop@.contains_key(t) <==> (old(self).two_hop@.contains_key(t) || g != base)
                &&& final(self).two_hop@.contains_key(t) ==> final(self).two_hop@[t]@ == g
            },
    {
        let ghost old_map = self.two_hop@;
        let mut i: usize = 0;
        while i < nbrs.len()
            invariant
                i <= nbrs@.len(),
                self.local_id == old(self).local_id,
                self.neighbors@ == old(self).neighbors@,
                self.topology@ == old(self).topology@,
                self.routes@ == old(self).routes@,
                self.last_tc_seq@ == old(self).last_tc_seq@,
                old_map == old(self).two_hop@,
                forall|t: u8| {
                    let base = if old_map.contains_key(t) { old_map[t]@ } else { Set::<u8>::empty() };
                    let g = if listed(nbrs@.take(i as int), t) && t != self.local_id && !self.neighbors@.contains_key(t) {
                        base.insert(node)
                    } else {
                        base
                    };
                    &&& #[trigger] self.two_hop@.contains_key(t) <==> (old_map.contains_key(t) || g != base)
                    &&& self.two_hop@.contains_key(t) ==> self.two_hop@[t]@ == g
                },
            decreases nbrs@.len() - i,
        {
            let n = nbrs[i].0;
            let ghost before = self.two_hop@;
            proof {
                let tk = nbrs@.take(i + 1);
                assert(tk[i as int] == nbrs@[i as int]);
                assert forall|t: u8| listed(tk, t) <==> (listed(nbrs@.take(i as int), t) || t == n) by {
                    if listed(tk, t) {
                        let j = choose|j: int| 0 <= j < tk.len() && (#[trigger] tk[j]).0 == t;
                        if j < i {
                            assert(nbrs@.take(i as int)[j] == tk[j]);
                        }
                    }
                    if listed(nbrs@.take(i as int), t) {
                        let j = choose|j: int| 0 <= j < i && (#[trigger] nbrs@.take(i as int)[j]).0 == t;
                        assert(tk[j] == nbrs@.take(i as int)[j]);
                    }
                }
            }
            if n != self.local_id && !self.neighbors.contains_key(&n) {
                match self.two_hop.remove(&n) {
                    Some(mut set) => {
                        set.insert(node);
                        self.two_hop.insert(n, set);
                    },
                    None => {
                        let mut set: HashSet<u8> = HashSet::new();
                        set.insert(node);
                        self.two_hop.insert(n, set);
                    },
                }
            }
            i = i + 1;
        }
        assert(nbrs@.take(nbrs@.len() as int) =~= nbrs@);
    }
}

/// Time since `then`, 0 if `then` lies in the future.
pub open spec fn elapsed(now: u64, then: u64) -> int {
    if now >= then { now - then } else { 0 }
}

/// The neighbors not heard from for longer than `NEIGHBOR_TIMEOUT_MS` at `now`.
pub open spec fn stale_set(nbrs: Map<u8, NeighborEntry>, now: u64) -> Set<u8> {
    Set::new(|t: u8| nbrs.contains_key(t) && elapsed(now, nbrs[t].last_hello_ms) > NEIGHBOR_TIMEOUT_MS)
}

/// Lexicographic order on `(src, dst)` link keys.
pub open spec fn edge_key_lt(a: (u8, u8), b: (u8, u8)) -> bool {
    a.0 < b.0 || (a.0 == b.0 && a.1 < b.1)
}

/// Duplicate suppression: once a TC has been processed (its sequence number is
/// the last one recorded for its sender), the same TC is no longer new, so it
/// is neither processed nor forwarded again.
pub proof fn lemma_tc_replay_rejected(s: &OlsrState, sender: u8, seq: u16)
    requires
        s.last_tc_seq@.contains_key(sender),
        s.last_tc_seq@[sender] == seq,
    ensures
        !s.tc_is_new(sender, seq),
{
}

impl OlsrState {
    /// Fresh state for node `local_id`: every table empty.
    pub fn new(local_id: u8) -> (r: OlsrState)
        ensures
            r.local_id == local_id,
            r.neighbors@ == Map::<u8, NeighborEntry>::empty(),
            r.two_hop@ == Map::<u8, HashSet<u8>>::empty(),
            r.topology@ == Map::<u8, HashMap<u8, LinkQuality>>::empty(),
            r.routes@ == Map::<u8, RouteEntry>::empty(),
            r.last_tc_seq@ == Map::<u8, u16>::empty(),
    {
        OlsrState {
            local_id,
            neighbors: HashMap::new(),
            two_hop: HashMap::new(),
            topology: HashMap::new(),
            routes: HashMap::new(),
            last_tc_seq: HashMap::new(),
        }
    }

    /// Whether a TC from `sender` with sequence `seq` is new: not our own, and
    /// either the first from that sender or not a duplicate of the last one
    /// processed from it.
    pub open spec fn tc_is_new(&self, sender: u8, seq: u16) -> bool {
        &&& sender != self.local_id
        &&& self.last_tc_seq@.contains_key(sender) ==> !tc_is_duplicate(seq, self.last_tc_seq@[sender])
    }

    /// The TC test on executable values (see `tc_is_new`).
    fn tc_new(&self, sender: u8, seq: u16) -> (r: bool)
        ensures
            r == self.tc_is_new(sender, seq),
    {
        if sender == self.local_id {
            return false;
        }
        match self.last_tc_seq.get(&sender) {
            Some(last) => {
                let d = last.wrapping_sub(seq);
                assert(d == (*last - seq) % 0x1_0000) by (bit_vector)
                    requires d == last.wrapping_sub(seq);
                d >= TC_DUP_WINDOW
            },
            None => true,
        }
    }

    /// Processes a TC. A new one (see `tc_is_new`) is recorded as the sender's
    /// last sequence number, replaces the sender's link-state entry with what it
    /// advertises, and routes are recomputed; returns whether it was new, that
    /// is, whether it should be forwarded. Anything else changes nothing.
    pub fn process_tc(&mut self, tc: &Tc, _from_link: u8) -> (r: bool)
        ensures
            r == old(self).tc_is_new(tc.sender, tc.seq),
            final(self).local_id == old(self).local_id,
            final(self).neighbors@ == old(self).neighbors@,
            final(self).two_hop@ == old(self).two_hop@,
            !r ==> final(self).topology@ == old(self).topology@ && final(self).routes@ == old(self).routes@
                && final(self).last_tc_seq@ == old(self).last_tc_seq@,
            r ==> {
                &&& final(self).last_tc_seq@ == old(self).last_tc_seq@.insert(tc.sender, tc.seq)
                &&& final(self).topology@.dom() == old(self).topology@.dom().insert(tc.sender)
                &&& final(self).topology@[tc.sender]@ == advertised_map(tc.advertised_neighbors@, old(self).local_id)
                &&& forall|k: u8| k != tc.sender && #[trigger] old(self).topology@.contains_key(k)
                    ==> final(self).topology@[k] == old(self).topology@[k]
                &&& routes_correct(&*final(self))
            },
    {
        if !self.tc_new(tc.sender, tc.seq) {
            return false;
        }
        self.last_tc_seq.insert(tc.sender, tc.seq);
        let mut entry: HashMap<u8, LinkQuality> = HashMap::new();
        let mut i: usize = 0;
        while i < tc.advertised_neighbors.len()
            invariant
                i <= tc.advertised_neighbors@.len(),
                entry@ == advertised_map(tc.advertised_neighbors@.take(i as int), self.local_id),
            decreases tc.advertised_neighbors@.len() - i,
        {
            let (n, q) = tc.advertised_neighbors[i];
            assert(tc.advertised_neighbors@.take(i + 1).drop_last() =~= tc.advertised_neighbors@.take(i as int));
            if n != self.local_id {
                entry.insert(n, q);
            }
            i = i + 1;
        }
        assert(tc.advertised_neighbors@.take(tc.advertised_neighbors@.len() as int) =~= tc.advertised_neighbors@);
        self.topology.insert(tc.sender, entry);
        self.recompute_routes();
        true
    }

    /// Processes a HELLO received at time `now_ms` with signal strength
    /// `rssi_dbm` (our own measurement): records or refreshes the sender as a
    /// 1-hop neighbor (quality: our RSSI, no loss, the MCS the sender reports
    /// for its link to us), rebuilds its 2-hop gateway contributions and
    /// recomputes routes. A HELLO from the local node changes nothing.
    pub fn process_hello_at(&mut self, hello: &Hello, rssi_dbm: i8, now_ms: u64)
        ensures
            hello_applied(&*old(self), &*final(self), *hello, rssi_dbm, now_ms),
    {
        let node = hello.sender;
        if node == self.local_id {
            return;
        }
        let ghost old_sets = gateway_sets(self.two_hop@);
        let mcs = hello_mcs(&hello.neighbors, self.local_id);
        let ids = hello_ids(&hello.neighbors);
        let entry = NeighborEntry {
            node_id: node,
            link_quality: LinkQuality { rssi_dbm, loss_rate_x100: 0, mcs },
            last_hello_ms: now_ms,
            last_seen_neighbors: ids,
        };
        self.neighbors.insert(node, entry);
        let ghost mid0 = self.two_hop@;
        self.drop_gateway(node);
        let ghost mid = self.two_hop@;
        self.add_gateways(&hello.neighbors, node);
        let ghost after = self.two_hop@;
        self.recompute_routes();
        proof {
            assert forall|t: u8| {
                let g = gateways_after(old_sets, hello.neighbors@, self.local_id, self.neighbors@, node, t);
                &&& #[trigger] self.two_hop@.contains_key(t) <==> !g.is_empty()
                &&& self.two_hop@.contains_key(t) ==> self.two_hop@[t]@ == g
            } by {
                let kept = if mid0.contains_key(t) { mid0[t]@.remove(node) } else { Set::<u8>::empty() };
                assert(old_sets.contains_key(t) == mid0.contains_key(t));
                if mid0.contains_key(t) {
                    assert(old_sets[t] == mid0[t]@);
                }
                let base = if mid.contains_key(t) { mid[t]@ } else { Set::<u8>::empty() };
                assert(base == kept);
                let g = gateways_after(old_sets, hello.neighbors@, self.local_id, self.neighbors@, node, t);
                if listed(hello.neighbors@, t) && t != self.local_id && !self.neighbors@.contains_key(t) {
                    assert(g.contains(node));
                    assert(!g.is_empty());
                    if kept.is_empty() {
                        assert(!kept.contains(node));
                        assert(g != kept);
                    }
                }
            }
            assert(self.neighbors@[node] == entry);
        }
    }

    /// Processes a HELLO received now (see `process_hello_at`).
    pub fn process_hello(&mut self, hello: &Hello, _from_link: u8, rssi_dbm: i8)
        ensures
            exists|now: u64| #[trigger] hello_applied(&*old(self), &*final(self), *hello, rssi_dbm, now),
    {
        let now = unix_now_ms();
        self.process_hello_at(hello, rssi_dbm, now);
    }

    /// The 1-hop neighbors, in increasing id order.
    pub fn neighbors(&self) -> (r: Vec<(u8, &NeighborEntry)>)
        ensures
            forall|i: int| 0 <= i < r@.len() ==> self.neighbors@.contains_key((#[trigger] r@[i]).0)
                && *r@[i].1 == self.neighbors@[r@[i].0],
            forall|i: int, j: int| 0 <= i < j < r@.len() ==> (#[trigger] r@[i]).0 < (#[trigger] r@[j]).0,
            forall|k: u8| #[trigger] self.neighbors@.contains_key(k) ==> exists|i: int| 0 <= i < r@.len() && (#[trigger] r@[i]).0 == k,
    {
        let mut out: Vec<(u8, &NeighborEntry)> = Vec::new();
        let mut t: usize = 0;
        while t < 256
            invariant
                t <= 256,
                forall|i: int| 0 <= i < out@.len() ==> self.neighbors@.contains_key((#[trigger] out@[i]).0)
                    && *out@[i].1 == self.neighbors@[out@[i].0] && out@[i].0 < t,
                forall|i: int, j: int| 0 <= i < j < out@.len() ==> (#[trigger] out@[i]).0 < (#[trigger] out@[j]).0,
                forall|k: u8| k < t && #[trigger] self.neighbors@.contains_key(k) ==> exists|i: int| 0 <= i < out@.len() && (#[trigger] out@[i]).0 == k,
            decreases 256 - t,
        {
            match self.neighbors.get(&(t as u8)) {
                Some(e) => {
                    let ghost before = out@;
                    out.push((t as u8, e));
                    proof {
                        let k = t as u8;
                        assert(out@[out@.len() - 1].0 == k);
                        assert forall|i: int| 0 <= i < before.len() implies out@[i] == before[i] by {}
                        assert forall|x: u8| x < t + 1 && #[trigger] self.neighbors@.contains_key(x)
                            implies exists|i: int| 0 <= i < out@.len() && (#[trigger] out@[i]).0 == x by {
                            if x < t {
                                let i = choose|i: int| 0 <= i < before.len() && (#[trigger] before[i]).0 == x;
                                assert(out@[i] == before[i]);
                            } else {
                                assert(out@[out@.len() - 1].0 == x);
                            }
                        }
                    }
                },
                None => {},
            }
            t = t + 1;
        }
        out
    }

    /// The links of the link-state database as `(src, dst, quality)`, in
    /// increasing `(src, dst)` order.
    pub fn topology_edges(&self) -> (r: Vec<(u8, u8, &LinkQuality)>)
        ensures
            forall|i: int| #![trigger r@[i]] 0 <= i < r@.len() ==> {
                &&& self.topology@.contains_key(r@[i].0)
                &&& self.topology@[r@[i].0]@.contains_key(r@[i].1)
                &&& *r@[i].2 == self.topology@[r@[i].0]@[r@[i].1]
            },
            forall|i: int, j: int| 0 <= i < j < r@.len() ==> edge_key_lt(((#[trigger] r@[i]).0, r@[i].1), ((#[trigger] r@[j]).0, r@[j].1)),
            forall|a: u8, b: u8| self.topology@.contains_key(a) && #[trigger] self.topology@[a]@.contains_key(b)
                ==> exists|i: int| 0 <= i < r@.len() && (#[trigger] r@[i]).0 == a && r@[i].1 == b,
    {
        let mut out: Vec<(u8, u8, &LinkQuality)> = Vec::new();
        let mut a: usize = 0;
        while a < 256
            invariant
                a <= 256,
                forall|i: int| #![trigger out@[i]] 0 <= i < out@.len() ==> {
                    &&& self.topology@.contains_key(out@[i].0)
                    &&& self.topology@[out@[i].0]@.contains_key(out@[i].1)
                    &&& *out@[i].2 == self.topology@[out@[i].0]@[out@[i].1]
                    &&& out@[i].0 < a
                },
                forall|i: int, j: int| 0 <= i < j < out@.len() ==> edge_key_lt(((#[trigger] out@[i]).0, out@[i].1), ((#[trigger] out@[j]).0, out@[j].1)),
                forall|x: u8, y: u8| x < a && self.topology@.contains_key(x) && #[trigger] self.topology@[x]@.contains_key(y)
                    ==> exists|i: int| 0 <= i < out@.len() && (#[trigger] out@[i]).0 == x && out@[i].1 == y,
            decreases 256 - a,
        {
            match self.topology.get(&(a as u8)) {
                Some(m) => {
                    let ghost start = out@;
                    let mut b: usize = 0;
                    while b < 256
                        invariant
                            a < 256,
                            b <= 256,
                            self.topology@.contains_key(a as u8),
                            self.topology@[a as u8] == *m,
                            out@.len() >= start.len(),
                            forall|i: int| 0 <= i < start.len() ==> out@[i] == start[i],
                            forall|i: int| #![trigger out@[i]] 0 <= i < out@.len() ==> {
                                &&& self.topology@.contains_key(out@[i].0)
                                &&& self.topology@[out@[i].0]@.contains_key(out@[i].1)
                                &&& *out@[i].2 == self.topology@[out@[i].0]@[out@[i].1]
                                &&& out@[i].0 <= a
                                &&& i >= start.len() ==> out@[i].0 == a && out@[i].1 < b
                            },
                            forall|i: int| #![trigger start[i]] 0 <= i < start.len() ==> start[i].0 < a,
                            forall|i: int, j: int| 0 <= i < j < out@.len() ==> edge_key_lt(((#[trigger] out@[i]).0, out@[i].1), ((#[trigger] out@[j]).0, out@[j].1)),
                            forall|x: u8, y: u8| x < a && self.topology@.contains_key(x) && #[trigger] self.topology@[x]@.contains_key(y)
                                ==> exists|i: int| 0 <= i < out@.len() && (#[trigger] out@[i]).0 == x && out@[i].1 == y,
                            forall|y: u8| y < b && #[trigger] m@.contains_key(y)
                                ==> exists|i: int| 0 <= i < out@.len() && (#[trigger] out@[i]).0 == a as u8 && out@[i].1 == y,
                        decreases 256 - b,
                    {
                        match m.get(&(b as u8)) {
                            Some(q) => {
                                let ghost before = out@;
                                out.push((a as u8, b as u8, q));
                                proof {
                                    assert forall|i: int| 0 <= i < before.len() implies out@[i] == before[i] by {}
                                    assert(out@[out@.len() - 1].0 == a as u8 && out@[out@.len() - 1].1 == b as u8);
                                    assert forall|i: int, j: int| 0 <= i < j < out@.len() implies edge_key_lt(((#[trigger] out@[i]).0, out@[i].1), ((#[trigger] out@[j]).0, out@[j].1)) by {
                                        assert(out@[i] == before[i]);
                                        if j < before.len() {
                                            assert(out@[j] == before[j]);
                                        } else if i < start.len() {
                                            assert(start[i] == before[i]);
                                        }
                                    }
                                    assert forall|x: u8, y: u8| x < a && self.topology@.contains_key(x) && #[trigger] self.topology@[x]@.contains_key(y)
                                        implies exists|i: int| 0 <= i < out@.len() && (#[trigger] out@[i]).0 == x && out@[i].1 == y by {
                                        let i = choose|i: int| 0 <= i < before.len() && (#[trigger] before[i]).0 == x && before[i].1 == y;
                                        assert(out@[i] == before[i]);
                                    }
                                    assert forall|y: u8| y < b + 1 && #[trigger] m@.contains_key(y)
                                        implies exists|i: int| 0 <= i < out@.len() && (#[trigger] out@[i]).0 == a as u8 && out@[i].1 == y by {
                                        if y < b {
                                            let i = choose|i: int| 0 <= i < before.len() && (#[trigger] before[i]).0 == a as u8 && before[i].1 == y;
                                            assert(out@[i] == before[i]);
                                        }
                                    }
                                }
                            },
                            None => {},
                        }
                        b = b + 1;
                    }
                },
                None => {},
            }
            a = a + 1;
        }
        out
    }

    /// Drops every neighbor not heard from for longer than
    /// `NEIGHBOR_TIMEOUT_MS` at time `now_ms`, with its link-state entry and its
    /// 2-hop gateway contributions; when any was dropped, routes are cleared if
    /// no neighbor is left and recomputed otherwise. Returns the dropped ids in
    /// increasing order.
    pub fn expire_neighbors(&mut self, now_ms: u64) -> (r: Vec<u8>)
        ensures
            ({
                let stale = stale_set(old(self).neighbors@, now_ms);
                &&& forall|t: u8| r@.contains(t) <==> #[trigger] stale.contains(t)
                &&& forall|i: int, j: int| 0 <= i < j < r@.len() ==> r@[i] < r@[j]
                &&& final(self).local_id == old(self).local_id
                &&& final(self).last_tc_seq@ == old(self).last_tc_seq@
                &&& final(self).neighbors@ == old(self).neighbors@.remove_keys(stale)
                &&& final(self).topology@ == old(self).topology@.remove_keys(stale)
                &&& r@.len() == 0 ==> final(self).two_hop@ == old(self).two_hop@
                &&& r@.len() > 0 ==> forall|t: u8| {
                    let rest = if old(self).two_hop@.contains_key(t) { old(self).two_hop@[t]@.difference(stale) } else { Set::<u8>::empty() };
                    &&& #[trigger] final(self).two_hop@.contains_key(t) <==> !rest.is_empty()
                    &&& final(self).two_hop@.contains_key(t) ==> final(self).two_hop@[t]@ == rest
                }
                &&& r@.len() == 0 ==> final(self).routes@ == old(self).routes@
                &&& r@.len() > 0 ==> routes_correct(&*final(self))
            }),
    {
        let ghost stale = stale_set(self.neighbors@, now_ms);
        let ghost old_nbrs = self.neighbors@;
        let ghost old_topo = self.topology@;
        let ghost old_two = self.two_hop@;
        let mut ids: Vec<u8> = Vec::new();
        let mut t: usize = 0;
        while t < 256
            invariant
                t <= 256,
                stale == stale_set(self.neighbors@, now_ms),
                forall|x: u8| ids@.contains(x) <==> x < t && #[trigger] stale.contains(x),
                forall|i: int, j: int| 0 <= i < j < ids@.len() ==> ids@[i] < ids@[j],
                forall|i: int| 0 <= i < ids@.len() ==> ids@[i] < t,
                self.neighbors@ == old(self).neighbors@,
            decreases 256 - t,
        {
            match self.neighbors.get(&(t as u8)) {
                Some(e) => {
                    let age = if now_ms >= e.last_hello_ms { now_ms - e.last_hello_ms } else { 0 };
                    if age > NEIGHBOR_TIMEOUT_MS {
                        let ghost before = ids@;
                        ids.push(t as u8);
                        proof {
                            assert(ids@ == before.push(t as u8));
                            assert forall|x: u8| ids@.contains(x) <==> (before.contains(x) || x == t as u8) by {
                                if ids@.contains(x) {
                                    let i = choose|i: int| 0 <= i < ids@.len() && ids@[i] == x;
                                    if i < before.len() {
                                        assert(before[i] == x);
                                    }
                                }
                                if before.contains(x) {
                                    let i = choose|i: int| 0 <= i < before.len() && before[i] == x;
                                    assert(ids@[i] == x);
                                }
                                if x == t as u8 {
                                    assert(ids@[ids@.len() - 1] == x);
                                }
                            }
                            assert forall|x: u8| ids@.contains(x) <==> x < t + 1 && #[trigger] stale.contains(x) by {
                                if x == t as u8 {
                                    assert(ids@[ids@.len() - 1] == x);
                                }
                            }
                        }
                    } else {
                        assert(!stale.contains(t as u8));
                    }
                },
                None => {
                    assert(!stale.contains(t as u8));
                },
            }
            t = t + 1;
        }
        let mut i: usize = 0;
        while i < ids.len()
            invariant
                i <= ids@.len(),
                forall|x: u8| ids@.contains(x) <==> #[trigger] stale.contains(x),
                self.local_id == old(self).local_id,
                self.last_tc_seq@ == old(self).last_tc_seq@,
                self.routes@ == old(self).routes@,
                self.neighbors@ == old_nbrs.remove_keys(ids@.take(i as int).to_set()),
                self.topology@ == old_topo.remove_keys(ids@.take(i as int).to_set()),
                i == 0 ==> self.two_hop@ == old_two,
                i > 0 ==> forall|x: u8| {
                    let rest = if old_two.contains_key(x) { old_two[x]@.difference(ids@.take(i as int).to_set()) } else { Set::<u8>::empty() };
                    &&& #[trigger] self.two_hop@.contains_key(x) <==> !rest.is_empty()
                    &&& self.two_hop@.contains_key(x) ==> self.two_hop@[x]@ == rest
                },
            decreases ids@.len() - i,
        {
            let id = ids[i];
            let ghost sofar = ids@.take(i as int).to_set();
            let ghost next = ids@.take(i + 1).to_set();
            proof {
                assert(ids@.take(i + 1) =~= ids@.take(i as int).push(id));
                ids@.take(i as int).lemma_push_to_set_commute(id);
                assert(next =~= sofar.insert(id));
            }
            let ghost before = self.two_hop@;
            self.neighbors.remove(&id);
            self.topology.remove(&id);
            self.drop_gateway(id);
            proof {
                assert(self.neighbors@ =~= old_nbrs.remove_keys(next));
                assert(self.topology@ =~= old_topo.remove_keys(next));
                assert forall|x: u8| {
                    let rest = if old_two.contains_key(x) { old_two[x]@.difference(next) } else { Set::<u8>::empty() };
                    &&& #[trigger] self.two_hop@.contains_key(x) <==> !rest.is_empty()
                    &&& self.two_hop@.contains_key(x) ==> self.two_hop@[x]@ == rest
                } by {
                    let rest0 = if old_two.contains_key(x) { old_two[x]@.difference(sofar) } else { Set::<u8>::empty() };
                    let rest = if old_two.contains_key(x) { old_two[x]@.difference(next) } else { Set::<u8>::empty() };
                    assert(rest =~= rest0.remove(id));
                    if i == 0 {
                        assert(ids@.take(0).to_set() =~= Set::<u8>::empty());
                        assert(rest0 =~= (if old_two.contains_key(x) { old_two[x]@ } else { Set::<u8>::empty() }));
                    } else if !before.contains_key(x) {
                        assert(rest0 =~= Set::<u8>::empty());
                    }
                }
            }
            i = i + 1;
        }
        proof {
            assert(ids@.take(ids@.len() as int) =~= ids@);
            assert(ids@.to_set() =~= stale);
        }
        if ids.len() > 0 {
            if self.neighbors.is_empty() {
                self.routes.clear();
                proof {
                    crate::routing::lemma_no_neighbors_no_routes(&*self);
                }
            } else {
                self.recompute_routes();
            }
        }
        ids
    }

    /// The 1-hop neighbors with their link quality, in increasing id order.
    pub fn neighbor_qualities(&self) -> (r: Vec<(u8, LinkQuality)>)
        ensures
            forall|i: int| 0 <= i < r@.len() ==> self.neighbors@.contains_key((#[trigger] r@[i]).0)
                && r@[i].1 == self.neighbors@[r@[i].0].link_quality,
            forall|i: int, j: int| 0 <= i < j < r@.len() ==> (#[trigger] r@[i]).0 < (#[trigger] r@[j]).0,
            forall|k: u8| #[trigger] self.neighbors@.contains_key(k) ==> exists|i: int| 0 <= i < r@.len() && (#[trigger] r@[i]).0 == k,
    {
        let nb = self.neighbors();
        let mut out: Vec<(u8, LinkQuality)> = Vec::new();
        let mut i: usize = 0;
        while i < nb.len()
            invariant
                i <= nb@.len(),
                out@.len() == i,
                forall|j: int| 0 <= j < i ==> (#[trigger] out@[j]).0 == nb@[j].0 && out@[j].1 == nb@[j].1.link_quality,
            decreases nb@.len() - i,
        {
            out.push((nb[i].0, nb[i].1.link_quality));
            i = i + 1;
        }
        proof {
            assert forall|k: u8| #[trigger] self.neighbors@.contains_key(k) implies exists|i: int| 0 <= i < out@.len() && (#[trigger] out@[i]).0 == k by {
                let i = choose|i: int| 0 <= i < nb@.len() && (#[trigger] nb@[i]).0 == k;
                assert(out@[i].0 == k);
            }
            assert forall|a: int, b: int| 0 <= a < b < out@.len() implies (#[trigger] out@[a]).0 < (#[trigger] out@[b]).0 by {
                assert(nb@[a].0 < nb@[b].0);
            }
        }
        out
    }

    /// The HELLO this node broadcasts at `now_ms`: itself as sender and its
    /// 1-hop neighbors with their link quality (see `neighbor_qualities`).
    pub fn hello_message(&self, now_ms: u64) -> (r: Hello)
        ensures
            r.sender == self.local_id,
            r.sent_at_ms == now_ms,
            forall|i: int| 0 <= i < r.neighbors@.len() ==> self.neighbors@.contains_key((#[trigger] r.neighbors@[i]).0)
                && r.neighbors@[i].1 == self.neighbors@[r.neighbors@[i].0].link_quality,
            forall|i: int, j: int| 0 <= i < j < r.neighbors@.len() ==> (#[trigger] r.neighbors@[i]).0 < (#[trigger] r.neighbors@[j]).0,
            forall|k: u8| #[trigger] self.neighbors@.contains_key(k) ==> exists|i: int| 0 <= i < r.neighbors@.len() && (#[trigger] r.neighbors@[i]).0 == k,
    {
        let nq = self.neighbor_qualities();
        let r = Hello { sender: self.local_id, neighbors: nq, sent_at_ms: now_ms };
        assert(r.neighbors@ == nq@);
        r
    }

    /// The TC this node broadcasts with sequence number `seq` at `now_ms`: its
    /// 1-hop neighbors with their link quality (see `neighbor_qualities`).
    pub fn tc_message(&self, seq: u16, now_ms: u64) -> (r: Tc)
        ensures
            r.sender == self.local_id,
            r.seq == seq,
            r.sent_at_ms == now_ms,
            forall|i: int| 0 <= i < r.advertised_neighbors@.len() ==> self.neighbors@.contains_key((#[trigger] r.advertised_neighbors@[i]).0)
                && r.advertised_neighbors@[i].1 == self.neighbors@[r.advertised_neighbors@[i].0].link_quality,
            forall|i: int, j: int| 0 <= i < j < r.advertised_neighbors@.len() ==> (#[trigger] r.advertised_neighbors@[i]).0 < (#[trigger] r.advertised_neighbors@[j]).0,
            forall|k: u8| #[trigger] self.neighbors@.contains_key(k) ==> exists|i: int| 0 <= i < r.advertised_neighbors@.len() && (#[trigger] r.advertised_neighbors@[i]).0 == k,
    {
        let nq = self.neighbor_qualities();
        let r = Tc { sender: self.local_id, seq, advertised_neighbors: nq, sent_at_ms: now_ms };
        assert(r.advertised_neighbors@ == nq@);
        r
    }

    /// The route to `dst`, if there is one.
    pub fn route_to(&self, dst: u8) -> (r: Option<&RouteEntry>)
        ensures
            r is Some <==> self.routes@.contains_key(dst),
            r matches Some(e) ==> *e == self.routes@[dst],
    {
        self.routes.get(&dst)
    }
}

/// Whether a received TC is new and should be forwarded: the same test as
/// `OlsrState::process_tc`, without changing anything.
pub fn should_forward_tc(state: &OlsrState, tc: &Tc) -> (r: bool)
    ensures
        r == state.tc_is_new(tc.sender, tc.seq),
{
    state.tc_new(tc.sender, tc.seq)
}

} // verus!
