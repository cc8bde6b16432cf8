use std::collections::HashMap;

use tacticalmesh::olsr::{link_cost, should_forward_tc, Hello, LinkQuality, NeighborEntry, OlsrState, Tc};

fn lq(mcs: u8, rssi_dbm: i8, loss: u8) -> LinkQuality {
    LinkQuality { mcs, rssi_dbm, loss_rate_x100: loss }
}

// ── link cost ─────────────────────────────────────────────────────────────────

#[test]
fn link_cost_mcs_base() {
    assert_eq!(link_cost(&lq(0, -30, 0)), 100); // base 100, no penalties
    assert_eq!(link_cost(&lq(1, -30, 0)), 90);
    assert_eq!(link_cost(&lq(2, -30, 0)), 80);
    assert_eq!(link_cost(&lq(3, -30, 0)), 70);
    assert_eq!(link_cost(&lq(4, -30, 0)), 60);
    assert_eq!(link_cost(&lq(7, -30, 0)), 50); // fallthrough
}

#[test]
fn link_cost_rssi_penalty() {
    // rssi -50: penalty = (50-30)*2 = 40
    assert_eq!(link_cost(&lq(0, -50, 0)), 100 + 40);
    // rssi -20: clamped to 0
    assert_eq!(link_cost(&lq(0, -20, 0)), 100);
}

#[test]
fn link_cost_loss_penalty() {
    // loss 10% × 10 = 100
    assert_eq!(link_cost(&lq(0, -30, 10)), 100 + 100);
}

#[test]
fn link_cost_combined() {
    // mcs=4 base=60, rssi=-50 penalty=40, loss=5 penalty=50 → 150
    assert_eq!(link_cost(&lq(4, -50, 5)), 60 + 40 + 50);
}

// ── route computation ─────────────────────────────────────────────────────────

#[test]
fn dijkstra_three_node_chain() {
    let mut state = OlsrState::new(1);

    state.neighbors.insert(
        2,
        NeighborEntry { node_id: 2, link_quality: lq(0, -30, 0), last_hello_ms: 0, last_seen_neighbors: vec![1, 3] },
    );
    let mut n2_topo = HashMap::new();
    n2_topo.insert(3, lq(0, -30, 0));
    state.topology.insert(2, n2_topo);

    state.recompute_routes();

    let r2 = state.routes.get(&2).expect("route to 2");
    assert_eq!(r2.next_hop, 2);
    assert_eq!(r2.cost, 100);
    assert_eq!(r2.hop_count, 1);

    let r3 = state.routes.get(&3).expect("route to 3");
    assert_eq!(r3.next_hop, 2);
    assert_eq!(r3.cost, 200);
    assert_eq!(r3.hop_count, 2);
}

#[test]
fn dijkstra_prefers_lower_cost_path() {
    let mut state = OlsrState::new(1);

    state.neighbors.insert(
        2,
        NeighborEntry { node_id: 2, link_quality: lq(4, -30, 0), last_hello_ms: 0, last_seen_neighbors: vec![1, 4] },
    );
    state.neighbors.insert(
        3,
        NeighborEntry { node_id: 3, link_quality: lq(0, -80, 0), last_hello_ms: 0, last_seen_neighbors: vec![1, 4] },
    );

    let mut n2 = HashMap::new();
    n2.insert(4, lq(4, -30, 0));
    let mut n3 = HashMap::new();
    n3.insert(4, lq(4, -30, 0));
    state.topology.insert(2, n2);
    state.topology.insert(3, n3);

    state.recompute_routes();

    let r4 = state.routes.get(&4).expect("route to 4");
    assert_eq!(r4.next_hop, 2);
    assert_eq!(r4.cost, 120);
    assert_eq!(r4.hop_count, 2);
}

// ── TC duplicate suppression ──────────────────────────────────────────────────

fn tc(seq: u16) -> Tc {
    Tc { sender: 2, seq, advertised_neighbors: vec![], sent_at_ms: 0 }
}

#[test]
fn tc_dedup_blocks_old_seq() {
    let mut state = OlsrState::new(1);
    assert!(state.process_tc(&tc(5), 0)); // new
    assert!(!state.process_tc(&tc(5), 0)); // duplicate
    assert!(!state.process_tc(&tc(3), 0)); // old
    assert!(state.process_tc(&tc(6), 0)); // new
}

#[test]
fn tc_dedup_handles_wraparound() {
    let mut state = OlsrState::new(1);
    assert!(state.process_tc(&tc(65500), 0));
    assert!(state.process_tc(&tc(3), 0)); // wraparound: gap > 100 → forward
}

#[test]
fn process_hello_updates_neighbors() {
    let mut state = OlsrState::new(1);
    let hello = Hello { sender: 2, neighbors: vec![(1, lq(0, -40, 0))], sent_at_ms: 1_000 };
    state.process_hello(&hello, 0, -45);

    let entry = state.neighbors.get(&2).expect("neighbor 2");
    assert_eq!(entry.link_quality.rssi_dbm, -45); // our radiotap measurement
    assert_eq!(entry.link_quality.mcs, 0); // sender's reported mcs for us
}

#[test]
fn aging_removes_neighbor_and_clears_routes() {
    let mut state = OlsrState::new(1);
    state.neighbors.insert(
        2,
        NeighborEntry { node_id: 2, link_quality: lq(0, -30, 0), last_hello_ms: 0, last_seen_neighbors: vec![] },
    );
    let mut n2 = HashMap::new();
    n2.insert(3, lq(0, -30, 0));
    state.topology.insert(2, n2);
    state.recompute_routes();
    assert!(!state.routes.is_empty());

    let dropped = state.expire_neighbors(unix_now_ms());
    assert_eq!(dropped, vec![2]);

    assert!(state.neighbors.is_empty());
    assert!(state.routes.is_empty());
}

// ── forwarding decision ───────────────────────────────────────────────────────

#[test]
fn should_forward_tc_new_seq() {
    let state = OlsrState::new(1);
    let tc = Tc { sender: 2, seq: 5, advertised_neighbors: vec![], sent_at_ms: 0 };
    assert!(should_forward_tc(&state, &tc));
}

#[test]
fn should_forward_tc_same_seq_is_dup() {
    let mut state = OlsrState::new(1);
    state.last_tc_seq.insert(2, 5);
    let tc = Tc { sender: 2, seq: 5, advertised_neighbors: vec![], sent_at_ms: 0 };
    assert!(!should_forward_tc(&state, &tc));
}

#[test]
fn should_forward_tc_local_sender_ignored() {
    let state = OlsrState::new(1);
    let tc = Tc { sender: 1, seq: 1, advertised_neighbors: vec![], sent_at_ms: 0 };
    assert!(!should_forward_tc(&state, &tc));
}

#[test]
fn should_forward_tc_wraparound() {
    let mut state = OlsrState::new(1);
    state.last_tc_seq.insert(2, 65500);
    // Sequence 10 after wraparound: gap > 100, should forward.
    let tc = Tc { sender: 2, seq: 10, advertised_neighbors: vec![], sent_at_ms: 0 };
    assert!(should_forward_tc(&state, &tc));
}

fn unix_now_ms() -> u64 {
    std::time::SystemTime::now().duration_since(std::time::UNIX_EPOCH).unwrap_or_default().as_millis() as u64
}
