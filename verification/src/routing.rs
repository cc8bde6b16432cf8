use std::collections::HashMap;

use vstd::prelude::*;

use crate::olsr::{link_cost, link_cost_spec, LinkQuality, NeighborEntry, OlsrState, RouteEntry, MAX_LINK_COST};

verus! {

broadcast use vstd::std_specs::hash::group_hash_axioms;

/// The routing graph of a node: its own id, its 1-hop neighbor table and the
/// TC link-state database (sender to neighbor to quality).
pub struct RoutingGraph {
    pub local: u8,
    pub neighbors: Map<u8, NeighborEntry>,
    pub topology: Map<u8, Map<u8, LinkQuality>>,
}

impl OlsrState {
    /// The routing graph this state describes.
    pub open spec fn graph(&self) -> RoutingGraph {
        RoutingGraph {
            local: self.local_id,
            neighbors: self.neighbors@,
            topology: self.topology@.map_values(|m: HashMap<u8, LinkQuality>| m@),
        }
    }
}

/// Cost of the link `u -> v` of the routing graph, if there is one. Links
/// out of the local node come from the 1-hop neighbor table (measured
/// quality); links out of any other node from the TC link-state database.
pub open spec fn edge(g: RoutingGraph, u: u8, v: u8) -> Option<int> {
    if u == g.local {
        if g.neighbors.contains_key(v) {
            Some(link_cost_spec(g.neighbors[v].link_quality))
        } else {
            None
        }
    } else if g.topology.contains_key(u) && g.topology[u].contains_key(v) {
        Some(link_cost_spec(g.topology[u][v]))
    } else {
        None
    }
}

/// Weight of the link `u -> v` (0 where there is none).
pub open spec fn weight(g: RoutingGraph, u: u8, v: u8) -> int {
    match edge(g, u, v) {
        Some(c) => c,
        None => 0,
    }
}

/// `p` is a walk through the routing graph starting at the local node.
pub open spec fn is_path(g: RoutingGraph, p: Seq<u8>) -> bool {
    &&& p.len() >= 1
    &&& p[0] == g.local
    &&& forall|i: int| 0 <= i < p.len() - 1 ==> (#[trigger] edge(g, p[i], p[i + 1])) is Some
}

/// Sum of the link costs along `p`.
pub open spec fn path_cost(g: RoutingGraph, p: Seq<u8>) -> int
    decreases p.len(),
{
    if p.len() <= 1 {
        0
    } else {
        path_cost(g, p.drop_last()) + weight(g, p[p.len() - 2], p.last())
    }
}

/// `v` can be reached from the local node.
pub open spec fn reachable(g: RoutingGraph, v: u8) -> bool {
    exists|p: Seq<u8>| #[trigger] is_path(g, p) && p.last() == v
}

/// No path to `v` costs less than `c`.
pub open spec fn no_cheaper_path(g: RoutingGraph, v: u8, c: int) -> bool {
    forall|q: Seq<u8>| #[trigger] is_path(g, q) && q.last() == v ==> c <= path_cost(g, q)
}

/// `r` is a shortest route to `v`: some cheapest path to `v` (with no node
/// twice) has cost `r.cost`; its first hop is `r`'s next hop and its number of
/// links `r`'s hop count.
pub open spec fn route_entry_for(g: RoutingGraph, v: u8, r: RouteEntry) -> bool {
    &&& r.destination == v
    &&& no_cheaper_path(g, v, r.cost as int)
    &&& exists|p: Seq<u8>| #[trigger] is_path(g, p) && p.last() == v && 2 <= p.len() <= 256
        && path_cost(g, p) == r.cost && r.next_hop == p[1] && r.hop_count == p.len() - 1
}

/// `routes` holds exactly one shortest route for every node reachable from the
/// local node (other than itself).
pub open spec fn routes_correct_in(g: RoutingGraph, routes: Map<u8, RouteEntry>) -> bool {
    &&& forall|v: u8| #[trigger] routes.contains_key(v) <==> (v != g.local && reachable(g, v))
    &&& forall|v: u8| #[trigger] routes.contains_key(v) ==> route_entry_for(g, v, routes[v])
}

/// The route table of `s` is correct for its routing graph.
pub open spec fn routes_correct(s: &OlsrState) -> bool {
    routes_correct_in(s.graph(), s.routes@)
}

proof fn lemma_link_cost_range(q: LinkQuality)
    ensures
        50 <= link_cost_spec(q) <= MAX_LINK_COST,
{
}

proof fn lemma_edge_range(g: RoutingGraph, u: u8, v: u8)
    ensures
        edge(g, u, v) matches Some(c) ==> 50 <= c <= MAX_LINK_COST,
        0 <= weight(g, u, v) <= MAX_LINK_COST,
{
    if u == g.local {
        if g.neighbors.contains_key(v) {
            lemma_link_cost_range(g.neighbors[v].link_quality);
        }
    } else if g.topology.contains_key(u) && g.topology[u].contains_key(v) {
        lemma_link_cost_range(g.topology[u][v]);
    }
}

proof fn lemma_path_cost_bounds(g: RoutingGraph, p: Seq<u8>)
    ensures
        0 <= path_cost(g, p),
        p.len() >= 1 ==> path_cost(g, p) <= (p.len() - 1) * MAX_LINK_COST,
    decreases p.len(),
{
    if p.len() > 1 {
        lemma_path_cost_bounds(g, p.drop_last());
        lemma_edge_range(g, p[p.len() - 2], p.last());
    }
}

/// Joining `a` and `b` at their shared node adds their costs.
proof fn lemma_path_cost_join(g: RoutingGraph, a: Seq<u8>, b: Seq<u8>)
    requires
        a.len() >= 1,
        b.len() >= 1,
        a.last() == b[0],
    ensures
        path_cost(g, a + b.drop_first()) == path_cost(g, a) + path_cost(g, b),
    decreases b.len(),
{
    let c = a + b.drop_first();
    if b.len() == 1 {
        assert(c =~= a);
    } else {
        let b1 = b.drop_last();
        lemma_path_cost_join(g, a, b1);
        assert(c.drop_last() =~= a + b1.drop_first());
        assert(c.last() == b.last());
        assert(c[c.len() - 2] == b[b.len() - 2]);
    }
}

/// Joining two paths at a shared node gives a path.
proof fn lemma_is_path_join(g: RoutingGraph, a: Seq<u8>, b: Seq<u8>)
    requires
        is_path(g, a),
        b.len() >= 1,
        a.last() == b[0],
        forall|i: int| 0 <= i < b.len() - 1 ==> (#[trigger] edge(g, b[i], b[i + 1])) is Some,
    ensures
        is_path(g, a + b.drop_first()),
        (a + b.drop_first()).last() == b.last(),
{
    let c = a + b.drop_first();
    assert forall|i: int| 0 <= i < c.len() - 1 implies (#[trigger] edge(g, c[i], c[i + 1])) is Some by {
        if i < a.len() - 1 {
            assert(c[i] == a[i] && c[i + 1] == a[i + 1]);
        } else {
            let k = i - (a.len() - 1);
            assert(c[i] == b[k] && c[i + 1] == b[k + 1]);
        }
    }
}

/// A duplicate-free sequence of values below `b` has at most `b` elements.
proof fn lemma_nodup_bound(q: Seq<u8>, b: nat)
    requires
        q.no_duplicates(),
        forall|i: int| 0 <= i < q.len() ==> q[i] < b,
    ensures
        q.len() <= b,
    decreases b,
{
    if b == 0 {
        if q.len() > 0 {
            assert(q[0] < 0);
        }
    } else {
        let top = (b - 1) as nat;
        if exists|i: int| 0 <= i < q.len() && q[i] == top {
            let i = choose|i: int| 0 <= i < q.len() && q[i] == top;
            let r = q.remove(i);
            assert forall|x: int, y: int| 0 <= x < r.len() && 0 <= y < r.len() && x != y implies r[x] != r[y] by {
                let xx = if x < i { x } else { x + 1 };
                let yy = if y < i { y } else { y + 1 };
                assert(r[x] == q[xx] && r[y] == q[yy]);
            }
            assert forall|k: int| 0 <= k < r.len() implies r[k] < top by {
                let kk = if k < i { k } else { k + 1 };
                assert(r[k] == q[kk]);
                assert(kk != i);
            }
            lemma_nodup_bound(r, top);
        } else {
            assert forall|k: int| 0 <= k < q.len() implies q[k] < top by {}
            lemma_nodup_bound(q, top);
        }
    }
}

/// Every node reachable at all is reachable by a path visiting at most 256
/// nodes, no dearer than any given path to it.
proof fn lemma_short_path(g: RoutingGraph, p: Seq<u8>) -> (q: Seq<u8>)
    requires
        is_path(g, p),
    ensures
        is_path(g, q),
        q.last() == p.last(),
        q.len() <= 256,
        path_cost(g, q) <= path_cost(g, p),
    decreases p.len(),
{
    if p.no_duplicates() {
        lemma_nodup_bound(p, 256);
        p
    } else {
        let (i, j) = choose|i: int, j: int| 0 <= i < p.len() && 0 <= j < p.len() && i != j && p[i] == p[j];
        let (i, j) = if i < j { (i, j) } else { (j, i) };
        let a = p.take(i + 1);
        let tail = p.skip(j);
        let mid = p.skip(i);
        let q1 = a + tail.drop_first();
        assert(p =~= a + mid.drop_first());
        lemma_path_cost_join(g, a, mid);
        let seg = mid.take(j - i + 1);
        assert(mid =~= seg + tail.drop_first());
        lemma_path_cost_join(g, seg, tail);
        lemma_path_cost_bounds(g, seg);
        lemma_path_cost_join(g, a, tail);
        assert forall|k: int| 0 <= k < a.len() - 1 implies (#[trigger] edge(g, a[k], a[k + 1])) is Some by {
            assert(a[k] == p[k] && a[k + 1] == p[k + 1]);
        }
        assert forall|k: int| 0 <= k < tail.len() - 1 implies (#[trigger] edge(g, tail[k], tail[k + 1])) is Some by {
            assert(tail[k] == p[j + k] && tail[k + 1] == p[j + k + 1]);
        }
        lemma_is_path_join(g, a, tail);
        lemma_short_path(g, q1)
    }
}

/// Every link out of a reached node leads to a reached node at no more than
/// the sum: relaxing any link changes nothing.
pub open spec fn stable(g: RoutingGraph, dist: Seq<Option<u32>>) -> bool {
    forall|u: u8, v: u8| #![trigger dist[u as int], edge(g, u, v)]
        dist[u as int] is Some && edge(g, u, v) is Some
        ==> dist[v as int] is Some && dist[v as int]->Some_0 <= dist[u as int]->Some_0 + edge(g, u, v)->Some_0
}

/// The predecessor links are tight: each reached node other than the local one
/// is reached through its predecessor at exactly the cost of that link more.
pub open spec fn tight(g: RoutingGraph, dist: Seq<Option<u32>>, prev: Seq<Option<u8>>) -> bool {
    &&& dist.len() == 256
    &&& prev.len() == 256
    &&& dist[g.local as int] == Some(0u32)
    &&& prev[g.local as int] is None
    &&& forall|x: u8| #![trigger dist[x as int]] x != g.local && dist[x as int] is Some ==> {
        let u = prev[x as int]->Some_0;
        &&& prev[x as int] is Some
        &&& dist[u as int] is Some
        &&& edge(g, u, x) is Some
        &&& dist[x as int]->Some_0 == dist[u as int]->Some_0 + edge(g, u, x)->Some_0
    }
}

/// The path obtained by following predecessor links back from `v` (at most
/// `fuel` of them).
pub open spec fn tree_path(prev: Seq<Option<u8>>, v: u8, fuel: nat) -> Seq<u8>
    decreases fuel,
{
    if fuel == 0 || prev[v as int] is None {
        seq![v]
    } else {
        tree_path(prev, prev[v as int]->Some_0, (fuel - 1) as nat).push(v)
    }
}

proof fn lemma_stable_bound(g: RoutingGraph, dist: Seq<Option<u32>>, p: Seq<u8>)
    requires
        dist.len() == 256,
        dist[g.local as int] == Some(0u32),
        stable(g, dist),
        is_path(g, p),
    ensures
        dist[p.last() as int] is Some,
        dist[p.last() as int]->Some_0 <= path_cost(g, p),
    decreases p.len(),
{
    if p.len() > 1 {
        let q = p.drop_last();
        assert forall|i: int| 0 <= i < q.len() - 1 implies (#[trigger] edge(g, q[i], q[i + 1])) is Some by {
            assert(q[i] == p[i] && q[i + 1] == p[i + 1]);
        }
        lemma_stable_bound(g, dist, q);
        let u = q.last();
        let i = p.len() - 2;
        assert(u == p[i]);
        assert(edge(g, p[i], p[i + 1]) is Some);
        assert(dist[u as int] is Some && edge(g, u, p.last()) is Some);
    }
}

proof fn lemma_tree_path(g: RoutingGraph, dist: Seq<Option<u32>>, prev: Seq<Option<u8>>, v: u8, fuel: nat)
    requires
        tight(g, dist, prev),
        dist[v as int] is Some,
        fuel >= dist[v as int]->Some_0,
    ensures
        is_path(g, tree_path(prev, v, fuel)),
        tree_path(prev, v, fuel).last() == v,
        path_cost(g, tree_path(prev, v, fuel)) == dist[v as int]->Some_0,
        forall|j: int| #![trigger tree_path(prev, v, fuel)[j]] 1 <= j < tree_path(prev, v, fuel).len() ==> {
            &&& prev[tree_path(prev, v, fuel)[j] as int] == Some(tree_path(prev, v, fuel)[j - 1])
            &&& tree_path(prev, v, fuel)[j] != g.local
        },
        forall|j: int| #![trigger tree_path(prev, v, fuel)[j]] 0 <= j < tree_path(prev, v, fuel).len() ==> {
            &&& dist[tree_path(prev, v, fuel)[j] as int] is Some
            &&& dist[tree_path(prev, v, fuel)[j] as int]->Some_0 <= dist[v as int]->Some_0
        },
        tree_path(prev, v, fuel).no_duplicates(),
    decreases fuel,
{
    let p = tree_path(prev, v, fuel);
    if v == g.local {
        assert(p == seq![v]);
        assert(p.no_duplicates());
    } else {
        let u = prev[v as int]->Some_0;
        lemma_edge_range(g, u, v);
        assert(dist[v as int] is Some);
        lemma_tree_path(g, dist, prev, u, (fuel - 1) as nat);
        let q = tree_path(prev, u, (fuel - 1) as nat);
        assert(p == q.push(v));
        let link = seq![u, v];
        assert(q + link.drop_first() =~= p);
        lemma_path_cost_join(g, q, link);
        assert(path_cost(g, link) == weight(g, u, v)) by {
            assert(link.drop_last() =~= seq![u]);
            assert(link.len() == 2 && link[0] == u && link[1] == v);
            assert(path_cost(g, seq![u]) == 0);
        }
        assert forall|i: int| 0 <= i < link.len() - 1 implies (#[trigger] edge(g, link[i], link[i + 1])) is Some by {}
        lemma_is_path_join(g, q, link);
        assert forall|j: int| #![trigger p[j]] 1 <= j < p.len() implies {
            &&& prev[p[j] as int] == Some(p[j - 1])
            &&& p[j] != g.local
        } by {
            if j < p.len() - 1 {
                assert(p[j] == q[j] && p[j - 1] == q[j - 1]);
            } else {
                assert(p[j - 1] == q.last());
            }
        }
        assert(dist[u as int]->Some_0 < dist[v as int]->Some_0);
        assert forall|j: int| #![trigger p[j]] 0 <= j < p.len() implies {
            &&& dist[p[j] as int] is Some
            &&& dist[p[j] as int]->Some_0 <= dist[v as int]->Some_0
        } by {
            if j < p.len() - 1 {
                assert(p[j] == q[j]);
            }
        }
        assert forall|a: int, b: int| 0 <= a < p.len() && 0 <= b < p.len() && a != b implies p[a] != p[b] by {
            if a < p.len() - 1 && b < p.len() - 1 {
                assert(p[a] == q[a] && p[b] == q[b]);
            } else if a < p.len() - 1 {
                assert(p[a] == q[a]);
                assert(dist[q[a] as int]->Some_0 <= dist[u as int]->Some_0);
            } else {
                assert(p[b] == q[b]);
                assert(dist[q[b] as int]->Some_0 <= dist[u as int]->Some_0);
            }
        }
    }
}

/// `a`, saturated at `u32::MAX`.
pub open spec fn sat_u32(a: int) -> int {
    if a < u32::MAX { a } else { u32::MAX as int }
}

/// What the search state guarantees at every step: every reached node has a
/// witness path, whose cost is its distance unless that saturated, and every
/// reached node but the local one has a reached predecessor at no less than
/// the predecessor's distance plus the link.
pub open spec fn search_sound(g: RoutingGraph, dist: Seq<Option<u32>>, prev: Seq<Option<u8>>, wit: Seq<Seq<u8>>) -> bool {
    &&& dist.len() == 256
    &&& prev.len() == 256
    &&& wit.len() == 256
    &&& dist[g.local as int] == Some(0u32)
    &&& prev[g.local as int] is None
    &&& forall|x: u8| #![trigger dist[x as int]] dist[x as int] is Some ==> {
        &&& is_path(g, wit[x as int])
        &&& wit[x as int].last() == x
        &&& dist[x as int]->Some_0 < u32::MAX ==> path_cost(g, wit[x as int]) == dist[x as int]->Some_0
    }
    &&& forall|x: u8| #![trigger dist[x as int]] x != g.local && dist[x as int] is Some ==> {
        let u = prev[x as int]->Some_0;
        &&& prev[x as int] is Some
        &&& dist[u as int] is Some
        &&& edge(g, u, x) is Some
        &&& dist[x as int]->Some_0 >= sat_u32(dist[u as int]->Some_0 + edge(g, u, x)->Some_0)
    }
}

/// Distance of an entry for the termination measure (unreached counts as 2^32).
pub open spec fn dist_val(d: Option<u32>) -> nat {
    match d {
        Some(x) => x as nat,
        None => 0x1_0000_0000,
    }
}

/// Sum of the distances: every improvement lowers it.
pub open spec fn dist_measure(dist: Seq<Option<u32>>) -> nat
    decreases dist.len(),
{
    if dist.len() == 0 {
        0
    } else {
        dist_measure(dist.drop_last()) + dist_val(dist.last())
    }
}

proof fn lemma_measure_update(dist: Seq<Option<u32>>, i: int, x: Option<u32>)
    requires
        0 <= i < dist.len(),
    ensures
        dist_measure(dist.update(i, x)) == dist_measure(dist) - dist_val(dist[i]) + dist_val(x),
    decreases dist.len(),
{
    let d2 = dist.update(i, x);
    if i < dist.len() - 1 {
        lemma_measure_update(dist.drop_last(), i, x);
        assert(d2.drop_last() =~= dist.drop_last().update(i, x));
    } else {
        assert(d2.drop_last() =~= dist.drop_last());
    }
}

/// After a search that is sound and stable, the distances are optimal and the
/// predecessor links tight.
proof fn lemma_search_result(g: RoutingGraph, dist: Seq<Option<u32>>, prev: Seq<Option<u8>>, wit: Seq<Seq<u8>>)
    requires
        search_sound(g, dist, prev, wit),
        stable(g, dist),
    ensures
        tight(g, dist, prev),
        forall|x: u8| #![trigger dist[x as int]] dist[x as int] is Some ==> {
            &&& dist[x as int]->Some_0 <= 255 * MAX_LINK_COST
            &&& no_cheaper_path(g, x, dist[x as int]->Some_0 as int)
            &&& reachable(g, x)
        },
        forall|p: Seq<u8>| #[trigger] is_path(g, p) ==> dist[p.last() as int] is Some,
{
    assert forall|x: u8| #![trigger dist[x as int]] dist[x as int] is Some implies {
        &&& dist[x as int]->Some_0 <= 255 * MAX_LINK_COST
        &&& no_cheaper_path(g, x, dist[x as int]->Some_0 as int)
        &&& reachable(g, x)
    } by {
        let w = wit[x as int];
        let q = lemma_short_path(g, w);
        lemma_stable_bound(g, dist, q);
        lemma_path_cost_bounds(g, q);
        assert((q.len() - 1) * MAX_LINK_COST <= 255 * MAX_LINK_COST) by (nonlinear_arith)
            requires q.len() <= 256;
        assert forall|r: Seq<u8>| #[trigger] is_path(g, r) && r.last() == x implies dist[x as int]->Some_0 <= path_cost(g, r) by {
            lemma_stable_bound(g, dist, r);
        }
        assert(is_path(g, w) && w.last() == x);
    }
    assert forall|x: u8| #![trigger dist[x as int]] x != g.local && dist[x as int] is Some implies {
        let u = prev[x as int]->Some_0;
        &&& prev[x as int] is Some
        &&& dist[u as int] is Some
        &&& edge(g, u, x) is Some
        &&& dist[x as int]->Some_0 == dist[u as int]->Some_0 + edge(g, u, x)->Some_0
    } by {
        let u = prev[x as int]->Some_0;
        assert(dist[u as int] is Some);
        lemma_edge_range(g, u, x);
        assert(dist[u as int] is Some && edge(g, u, x) is Some);
    }
    assert forall|p: Seq<u8>| #[trigger] is_path(g, p) implies dist[p.last() as int] is Some by {
        lemma_stable_bound(g, dist, p);
    }
}

/// Improving the distance of `v` through `u` keeps the search sound.
proof fn lemma_relax_sound(
    g: RoutingGraph, dist: Seq<Option<u32>>, prev: Seq<Option<u8>>, wit: Seq<Seq<u8>>, u: u8, v: u8, du: u32, nd: u32,
) -> (wit2: Seq<Seq<u8>>)
    requires
        search_sound(g, dist, prev, wit),
        dist[u as int] == Some(du),
        edge(g, u, v) is Some,
        nd == sat_u32(du + edge(g, u, v)->Some_0),
        dist[v as int] matches Some(dv) ==> nd < dv,
    ensures
        search_sound(g, dist.update(v as int, Some(nd)), prev.update(v as int, Some(u)), wit2),
{
    let d2 = dist.update(v as int, Some(nd));
    let p2 = prev.update(v as int, Some(u));
    let wu = wit[u as int];
    let link = seq![u, v];
    lemma_edge_range(g, u, v);
    assert forall|i: int| 0 <= i < link.len() - 1 implies (#[trigger] edge(g, link[i], link[i + 1])) is Some by {}
    lemma_is_path_join(g, wu, link);
    lemma_path_cost_join(g, wu, link);
    assert(link.drop_last() =~= seq![u]);
    assert(path_cost(g, seq![u]) == 0);
    assert(link.len() == 2 && link[0] == u && link[1] == v);
    let wit2 = wit.update(v as int, wu + link.drop_first());
    assert(v != g.local) by {
        if v == g.local {
            assert(dist[v as int] == Some(0u32));
        }
    }
    assert forall|x: u8| #![trigger d2[x as int]] d2[x as int] is Some implies {
        &&& is_path(g, wit2[x as int])
        &&& wit2[x as int].last() == x
        &&& d2[x as int]->Some_0 < u32::MAX ==> path_cost(g, wit2[x as int]) == d2[x as int]->Some_0
    } by {
        if x != v {
            assert(dist[x as int] == d2[x as int]);
        }
    }
    assert forall|x: u8| #![trigger d2[x as int]] x != g.local && d2[x as int] is Some implies {
        let pu = p2[x as int]->Some_0;
        &&& p2[x as int] is Some
        &&& d2[pu as int] is Some
        &&& edge(g, pu, x) is Some
        &&& d2[x as int]->Some_0 >= sat_u32(d2[pu as int]->Some_0 + edge(g, pu, x)->Some_0)
    } by {
        if x != v {
            assert(dist[x as int] == d2[x as int]);
            let pu = prev[x as int]->Some_0;
            assert(dist[pu as int] is Some);
        }
    }
    wit2
}

impl OlsrState {
    /// The cost of link `u -> v`, if there is one.
    fn edge_cost(&self, u: u8, v: u8) -> (r: Option<u32>)
        ensures
            match r {
                Some(c) => edge(self.graph(), u, v) == Some(c as int),
                None => edge(self.graph(), u, v) is None,
            },
    {
        if u == self.local_id {
            match self.neighbors.get(&v) {
                Some(e) => Some(link_cost(&e.link_quality)),
                None => None,
            }
        } else {
            match self.topology.get(&u) {
                Some(m) => match m.get(&v) {
                    Some(q) => Some(link_cost(q)),
                    None => None,
                },
                None => None,
            }
        }
    }

    /// Relaxes the link `u -> v`, where `u` is at distance `du`: when it leads
    /// to `v` more cheaply than known (or `v` is unreached), `v` takes that
    /// distance with `u` as predecessor.
    fn relax_edge(
        &self, u: usize, du: u32, v: usize, dist: &mut Vec<Option<u32>>, prev: &mut Vec<Option<u8>>,
        changed: &mut bool, Ghost(wit0): Ghost<Seq<Seq<u8>>>,
    ) -> (res: Ghost<Seq<Seq<u8>>>)
        requires
            u < 256,
            v < 256,
            search_sound(self.graph(), old(dist)@, old(prev)@, wit0),
            old(dist)@[u as int] == Some(du),
        ensures
            search_sound(self.graph(), final(dist)@, final(prev)@, res@),
            final(dist)@[u as int] == Some(du),
            final(dist)@ == old(dist)@ || dist_measure(final(dist)@) < dist_measure(old(dist)@),
            *final(changed) == (*old(changed) || final(dist)@ != old(dist)@),
            final(dist)@ == old(dist)@ ==> (edge(self.graph(), u as u8, v as u8) is Some
                ==> final(dist)@[v as int] is Some
                    && final(dist)@[v as int]->Some_0 <= du + edge(self.graph(), u as u8, v as u8)->Some_0),
    {
        let ghost g = self.graph();
        match self.edge_cost(u as u8, v as u8) {
            Some(w) => {
                let nd = du.saturating_add(w);
                let better = match dist[v] {
                    None => true,
                    Some(dv) => nd < dv,
                };
                proof {
                    lemma_edge_range(g, u as u8, v as u8);
                }
                if better {
                    let ghost before = dist@;
                    let ghost before_prev = prev@;
                    dist.set(v, Some(nd));
                    prev.set(v, Some(u as u8));
                    *changed = true;
                    let ghost wit2 = lemma_relax_sound(g, before, before_prev, wit0, u as u8, v as u8, du, nd);
                    proof {
                        lemma_measure_update(before, v as int, Some(nd));
                        assert(dist@ =~= before.update(v as int, Some(nd)));
                        assert(prev@ =~= before_prev.update(v as int, Some(u as u8)));
                    }
                    Ghost(wit2)
                } else {
                    Ghost(wit0)
                }
            },
            None => Ghost(wit0),
        }
    }

    /// One relaxation pass over the links out of `u`, whose distance is `du`.
    fn relax_from(
        &self, u: usize, du: u32, dist: &mut Vec<Option<u32>>, prev: &mut Vec<Option<u8>>, changed: &mut bool,
        Ghost(wit0): Ghost<Seq<Seq<u8>>>,
    ) -> (res: Ghost<Seq<Seq<u8>>>)
        requires
            u < 256,
            search_sound(self.graph(), old(dist)@, old(prev)@, wit0),
            old(dist)@[u as int] == Some(du),
        ensures
            search_sound(self.graph(), final(dist)@, final(prev)@, res@),
            final(dist)@[u as int] == Some(du),
            dist_measure(final(dist)@) <= dist_measure(old(dist)@),
            dist_measure(final(dist)@) < dist_measure(old(dist)@) || final(dist)@ == old(dist)@,
            *final(changed) == (*old(changed) || final(dist)@ != old(dist)@),
            final(dist)@ == old(dist)@ ==> forall|y: u8| #![trigger edge(self.graph(), u as u8, y)] edge(self.graph(), u as u8, y) is Some
                ==> final(dist)@[y as int] is Some
                    && final(dist)@[y as int]->Some_0 <= du + edge(self.graph(), u as u8, y)->Some_0,
    {
        let ghost start = dist@;
        let ghost mut wit = wit0;
        let mut v: usize = 0;
        while v < 256
            invariant
                u < 256,
                v <= 256,
                search_sound(self.graph(), dist@, prev@, wit),
                dist@[u as int] == Some(du),
                dist_measure(dist@) <= dist_measure(start),
                dist_measure(dist@) < dist_measure(start) || dist@ == start,
                *changed == (*old(changed) || dist@ != start),
                dist@ == start ==> forall|y: u8| #![trigger edge(self.graph(), u as u8, y)] y < v && edge(self.graph(), u as u8, y) is Some
                    ==> dist@[y as int] is Some && dist@[y as int]->Some_0 <= du + edge(self.graph(), u as u8, y)->Some_0,
            decreases 256 - v,
        {
            let ghost before = dist@;
            let Ghost(w2) = self.relax_edge(u, du, v, dist, prev, changed, Ghost(wit));
            proof {
                wit = w2;
                if dist@ == start {
                    assert(before == start);
                }
            }
            v = v + 1;
        }
        Ghost(wit)
    }

    /// Distances from the local node, with predecessor links, by repeated
    /// relaxation of every link until nothing improves.
    fn shortest_paths(&self) -> (r: (Vec<Option<u32>>, Vec<Option<u8>>, Ghost<Seq<Seq<u8>>>))
        ensures
            search_sound(self.graph(), r.0@, r.1@, r.2@),
            stable(self.graph(), r.0@),
    {
        let mut dist: Vec<Option<u32>> = Vec::new();
        let mut prev: Vec<Option<u8>> = Vec::new();
        let mut i: usize = 0;
        while i < 256
            invariant
                i <= 256,
                dist@.len() == i,
                prev@.len() == i,
                forall|j: int| 0 <= j < i ==> prev@[j] is None,
                forall|j: int| 0 <= j < i ==> (dist@[j] is Some <==> j == self.local_id as int),
                forall|j: int| 0 <= j < i && dist@[j] is Some ==> dist@[j] == Some(0u32),
            decreases 256 - i,
        {
            if i == self.local_id as usize {
                dist.push(Some(0));
            } else {
                dist.push(None);
            }
            prev.push(None);
            i = i + 1;
        }
        let ghost mut wit: Seq<Seq<u8>> = Seq::new(256, |j: int| seq![self.local_id]);
        proof {
            assert(path_cost(self.graph(), seq![self.local_id]) == 0);
            assert(is_path(self.graph(), seq![self.local_id]));
        }
        let mut changed = true;
        while changed
            invariant
                search_sound(self.graph(), dist@, prev@, wit),
                !changed ==> stable(self.graph(), dist@),
            decreases dist_measure(dist@), if changed { 1int } else { 0int },
        {
            changed = false;
            let ghost start = dist@;
            let mut u: usize = 0;
            while u < 256
                invariant
                    u <= 256,
                    search_sound(self.graph(), dist@, prev@, wit),
                    dist_measure(dist@) <= dist_measure(start),
                    dist_measure(dist@) < dist_measure(start) || dist@ == start,
                    changed == (dist@ != start),
                    dist@ == start ==> forall|x: u8, y: u8| #![trigger dist@[x as int], edge(self.graph(), x, y)]
                        x < u && dist@[x as int] is Some && edge(self.graph(), x, y) is Some
                        ==> dist@[y as int] is Some && dist@[y as int]->Some_0 <= dist@[x as int]->Some_0 + edge(self.graph(), x, y)->Some_0,
                decreases 256 - u,
            {
                match dist[u] {
                    Some(du) => {
                        let Ghost(w2) = self.relax_from(u, du, &mut dist, &mut prev, &mut changed, Ghost(wit));
                        proof {
                            wit = w2;
                        }
                    },
                    None => {},
                }
                u = u + 1;
            }
        }
        (dist, prev, Ghost(wit))
    }
}

/// Walks predecessor links back from `dest` to the node just after the local
/// one: returns (next hop, hop count).
fn walk_back(prev: &Vec<Option<u8>>, local: u8, dest: u8, Ghost(p): Ghost<Seq<u8>>) -> (r: (u8, u8))
    requires
        prev@.len() == 256,
        2 <= p.len() <= 256,
        p[0] == local,
        p.last() == dest,
        forall|j: int| #![trigger p[j]] 1 <= j < p.len() ==> prev@[p[j] as int] == Some(p[j - 1]) && p[j] != local,
    ensures
        r.0 == p[1],
        r.1 == p.len() - 1,
{
    let ghost m = p.len() - 1;
    let mut next: u8 = dest;
    let mut hops: u8 = 0;
    loop
        invariant
            prev@.len() == 256,
            2 <= p.len() <= 256,
            m == p.len() - 1,
            p[0] == local,
            forall|j: int| #![trigger p[j]] 1 <= j < p.len() ==> prev@[p[j] as int] == Some(p[j - 1]) && p[j] != local,
            hops < m,
            next == p[m - hops],
        decreases m - hops,
    {
        let ghost j = m - hops;
        assert(prev@[p[j] as int] == Some(p[j - 1]));
        match prev[next as usize] {
            Some(pp) => {
                if pp == local {
                    assert(j - 1 == 0) by {
                        if j - 1 >= 1 {
                            assert(p[j - 1] != local);
                        }
                    }
                    return (next, hops + 1);
                }
                assert(j - 1 >= 1);
                next = pp;
                hops = hops + 1;
            },
            None => {
                proof {
                    assert(false);
                }
                return (next, hops);
            },
        }
    }
}

/// With no 1-hop neighbor nothing but the local node is reachable, so an empty
/// route table is the correct one.
pub proof fn lemma_no_neighbors_no_routes(s: &OlsrState)
    requires
        s.neighbors@.dom() =~= Set::<u8>::empty(),
        s.routes@ == Map::<u8, RouteEntry>::empty(),
    ensures
        routes_correct(s),
{
    let g = s.graph();
    assert forall|v: u8| #[trigger] s.routes@.contains_key(v) <==> (v != g.local && reachable(g, v)) by {
        if v != g.local && reachable(g, v) {
            let p = choose|p: Seq<u8>| #[trigger] is_path(g, p) && p.last() == v;
            assert(p.len() >= 2);
            let z: int = 0;
            assert(edge(g, p[z], p[z + 1]) is Some);
        }
    }
}

impl OlsrState {
    /// Recomputes the route table from the neighbor table and the link-state
    /// database: one route, along a cheapest path, to every reachable node.
    pub fn recompute_routes(&mut self)
        ensures
            final(self).local_id == old(self).local_id,
            final(self).neighbors@ == old(self).neighbors@,
            final(self).two_hop@ == old(self).two_hop@,
            final(self).topology@ == old(self).topology@,
            final(self).last_tc_seq@ == old(self).last_tc_seq@,
            routes_correct(&*final(self)),
    {
        let (dist, prev, Ghost(wit)) = self.shortest_paths();
        let ghost g = self.graph();
        proof {
            lemma_search_result(g, dist@, prev@, wit);
        }
        let mut routes: HashMap<u8, RouteEntry> = HashMap::new();
        let mut d: usize = 0;
        while d < 256
            invariant
                d <= 256,
                g == self.graph(),
                dist@.len() == 256,
                prev@.len() == 256,
                tight(g, dist@, prev@),
                forall|x: u8| #![trigger dist@[x as int]] dist@[x as int] is Some ==> {
                    &&& dist@[x as int]->Some_0 <= 255 * MAX_LINK_COST
                    &&& no_cheaper_path(g, x, dist@[x as int]->Some_0 as int)
                    &&& reachable(g, x)
                },
                forall|q: Seq<u8>| #[trigger] is_path(g, q) ==> dist@[q.last() as int] is Some,
                forall|v: u8| #[trigger] routes@.contains_key(v) <==> (v < d && v != g.local && dist@[v as int] is Some),
                forall|v: u8| #[trigger] routes@.contains_key(v) ==> route_entry_for(g, v, routes@[v]),
            decreases 256 - d,
        {
            if d != self.local_id as usize {
                match dist[d] {
                    Some(c) => {
                        let ghost p = tree_path(prev@, d as u8, c as nat);
                        proof {
                            lemma_tree_path(g, dist@, prev@, d as u8, c as nat);
                            assert(p.len() >= 2) by {
                                if p.len() < 2 {
                                    assert(p[0] == g.local);
                                }
                            }
                        }
                        proof {
                            assert forall|k: int| 0 <= k < p.len() implies p[k] < 256 by {}
                            lemma_nodup_bound(p, 256);
                        }
                        let (nh, hc) = walk_back(&prev, self.local_id, d as u8, Ghost(p));
                        let entry = RouteEntry { destination: d as u8, next_hop: nh, cost: c, hop_count: hc };
                        proof {
                            assert(is_path(g, p) && p.last() == d as u8 && 2 <= p.len() <= 256 && path_cost(g, p) == entry.cost
                                && entry.next_hop == p[1] && entry.hop_count == p.len() - 1);
                        }
                        routes.insert(d as u8, entry);
                    },
                    None => {},
                }
            }
            d = d + 1;
        }
        self.routes = routes;
        proof {
            assert forall|v: u8| #[trigger] self.routes@.contains_key(v) <==> (v != g.local && reachable(g, v)) by {
                if v != g.local && reachable(g, v) {
                    let q = choose|q: Seq<u8>| #[trigger] is_path(g, q) && q.last() == v;
                    assert(dist@[q.last() as int] is Some);
                }
            }
        }
    }
}

} // verus!
