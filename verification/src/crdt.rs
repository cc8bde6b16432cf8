use std::collections::HashMap;

use vstd::prelude::*;

pub use crate::messages::TargetKind;

verus! {

broadcast use vstd::std_specs::hash::group_hash_axioms;

/// Engagement state of a target, in the order in which states win a merge.
#[derive(Clone, Copy, Debug, PartialEq, Eq, Structural, PartialOrd, Ord)]
pub enum TargetState {
    Detected,
    Assigned,
    Engaged,
    Aborted,
    Destroyed,
}

/// Position of a state in the merge order.
pub open spec fn state_rank(s: TargetState) -> u8 {
    match s {
        TargetState::Detected => 0,
        TargetState::Assigned => 1,
        TargetState::Engaged => 2,
        TargetState::Aborted => 3,
        TargetState::Destroyed => 4,
    }
}

/// Position of a state in the merge order.
pub fn rank(s: TargetState) -> (r: u8)
    ensures
        r == state_rank(s),
{
    match s {
        TargetState::Detected => 0,
        TargetState::Assigned => 1,
        TargetState::Engaged => 2,
        TargetState::Aborted => 3,
        TargetState::Destroyed => 4,
    }
}

/// A tracked target. Coordinates are IEEE-754 `f32` bit patterns.
#[derive(Clone, Copy, Debug, PartialEq, Eq, Structural)]
pub struct Target {
    pub id: u16,
    pub kind: TargetKind,
    pub state: TargetState,
    pub lat_bits: u32,
    pub lon_bits: u32,
    pub updated_at_ms: u64,
    pub assigned_to: Option<u8>,
}

/// A replicated update of one target.
#[derive(Clone, Copy, Debug, PartialEq, Eq, Structural)]
pub struct TargetUpdate {
    pub target: Target,
}

/// Code of a target kind, for breaking ties.
pub open spec fn kind_code(k: TargetKind) -> u8 {
    match k {
        TargetKind::Vehicle => 0,
        TargetKind::Personnel => 1,
        TargetKind::Emplacement => 2,
        TargetKind::Unknown => 3,
    }
}

/// Code of an assignment, for breaking ties: 0 for none, else striker + 1.
pub open spec fn assigned_code(a: Option<u8>) -> int {
    match a {
        None => 0,
        Some(x) => x + 1,
    }
}

/// Tie-break between two reports in the same state with the same timestamp:
/// the greater `(kind, latitude bits, longitude bits, assignment)` wins,
/// compared field by field.
pub open spec fn tie_wins(a: Target, b: Target) -> bool {
    ||| kind_code(a.kind) > kind_code(b.kind)
    ||| kind_code(a.kind) == kind_code(b.kind) && a.lat_bits > b.lat_bits
    ||| kind_code(a.kind) == kind_code(b.kind) && a.lat_bits == b.lat_bits && a.lon_bits > b.lon_bits
    ||| kind_code(a.kind) == kind_code(b.kind) && a.lat_bits == b.lat_bits && a.lon_bits == b.lon_bits
        && assigned_code(a.assigned_to) > assigned_code(b.assigned_to)
}

/// Whether `incoming` replaces `existing`: a later state in the merge order
/// wins; in the same state, the later timestamp wins; with state and
/// timestamp equal, the tie is broken by the remaining fields (see
/// `tie_wins`), so that any two different reports are ordered.
pub open spec fn wins(incoming: Target, existing: Target) -> bool {
    ||| state_rank(incoming.state) > state_rank(existing.state)
    ||| incoming.state == existing.state && incoming.updated_at_ms > existing.updated_at_ms
    ||| incoming.state == existing.state && incoming.updated_at_ms == existing.updated_at_ms
        && tie_wins(incoming, existing)
}

fn kind_code_of(k: TargetKind) -> (r: u8)
    ensures
        r == kind_code(k),
{
    match k {
        TargetKind::Vehicle => 0,
        TargetKind::Personnel => 1,
        TargetKind::Emplacement => 2,
        TargetKind::Unknown => 3,
    }
}

fn assigned_code_of(a: Option<u8>) -> (r: u16)
    ensures
        r == assigned_code(a),
{
    match a {
        None => 0,
        Some(x) => x as u16 + 1,
    }
}

/// The tie-break on executable values (see `tie_wins`).
fn tie_wins_exec(a: &Target, b: &Target) -> (r: bool)
    ensures
        r == tie_wins(*a, *b),
{
    let ka = kind_code_of(a.kind);
    let kb = kind_code_of(b.kind);
    if ka != kb {
        return ka > kb;
    }
    if a.lat_bits != b.lat_bits {
        return a.lat_bits > b.lat_bits;
    }
    if a.lon_bits != b.lon_bits {
        return a.lon_bits > b.lon_bits;
    }
    assigned_code_of(a.assigned_to) > assigned_code_of(b.assigned_to)
}

/// The board after merging `t`.
pub open spec fn merge_spec(board: Map<u16, Target>, t: Target) -> Map<u16, Target> {
    if !board.contains_key(t.id) || wins(t, board[t.id]) {
        board.insert(t.id, t)
    } else {
        board
    }
}

/// Merging is idempotent: merging an update a second time changes nothing.
pub proof fn lemma_merge_idempotent(board: Map<u16, Target>, t: Target)
    ensures
        merge_spec(merge_spec(board, t), t) == merge_spec(board, t),
{
    assert(!wins(t, t));
}

/// Merging is order-independent: two updates give the same board whichever is
/// merged first.
pub proof fn lemma_merge_commutes(board: Map<u16, Target>, a: Target, b: Target)
    ensures
        merge_spec(merge_spec(board, a), b) == merge_spec(merge_spec(board, b), a),
{
    let ab = merge_spec(merge_spec(board, a), b);
    let ba = merge_spec(merge_spec(board, b), a);
    if a.id != b.id {
        assert(ab =~= ba);
    } else {
        assert(ab =~= ba);
    }
}

/// Merging never moves a known target back: the stored target after a merge
/// is the one before or one that wins over it.
pub proof fn lemma_merge_monotone(board: Map<u16, Target>, t: Target, id: u16)
    requires
        board.contains_key(id),
    ensures
        merge_spec(board, t).contains_key(id),
        merge_spec(board, t)[id] == board[id] || wins(merge_spec(board, t)[id], board[id]),
        !wins(board[id], merge_spec(board, t)[id]),
{
}

/// The merge order of states is the order of the engagement: Detected, then
/// Assigned, Engaged, Aborted, and Destroyed last.
pub proof fn lemma_state_order()
    ensures
        state_rank(TargetState::Detected) < state_rank(TargetState::Assigned),
        state_rank(TargetState::Assigned) < state_rank(TargetState::Engaged),
        state_rank(TargetState::Engaged) < state_rank(TargetState::Aborted),
        state_rank(TargetState::Aborted) < state_rank(TargetState::Destroyed),
{
}

/// A destroyed target stays destroyed: merging any report in another state,
/// whatever its timestamp, leaves the board as it was.
pub proof fn lemma_destroyed_is_final(board: Map<u16, Target>, t: Target)
    requires
        board.contains_key(t.id),
        board[t.id].state == TargetState::Destroyed,
        t.state != TargetState::Destroyed,
    ensures
        merge_spec(board, t) == board,
{
}

/// A report in a later state of the engagement always replaces a stored one
/// in an earlier state, whatever the timestamps; one in an earlier state never
/// replaces it.
pub proof fn lemma_later_state_replaces(board: Map<u16, Target>, t: Target, earlier: TargetState, later: TargetState)
    requires
        board.contains_key(t.id),
        (earlier == TargetState::Detected && later != TargetState::Detected)
            || (earlier == TargetState::Assigned && (later == TargetState::Engaged || later == TargetState::Aborted || later == TargetState::Destroyed))
            || (earlier == TargetState::Engaged && (later == TargetState::Aborted || later == TargetState::Destroyed))
            || (earlier == TargetState::Aborted && later == TargetState::Destroyed),
    ensures
        board[t.id].state == earlier && t.state == later ==> merge_spec(board, t) == board.insert(t.id, t),
        board[t.id].state == later && t.state == earlier ==> merge_spec(board, t) == board,
{
}

/// The replicated target board (a state-based CRDT keyed by target id).
pub struct TargetBoard {
    targets: HashMap<u16, Target>,
}

impl TargetBoard {
    /// Every target is stored under its own id.
    #[verifier::type_invariant]
    spec fn keyed_by_id(self) -> bool {
        forall|k: u16| #[trigger] self.targets@.contains_key(k) ==> self.targets@[k].id == k
    }
}

impl View for TargetBoard {
    type V = Map<u16, Target>;

    closed spec fn view(&self) -> Map<u16, Target> {
        self.targets@
    }
}

impl Default for TargetBoard {
    /// An empty board.
    fn default() -> (r: TargetBoard)
        ensures
            r@ == Map::<u16, Target>::empty(),
    {
        TargetBoard::new()
    }
}

impl TargetBoard {
    /// An empty board.
    pub fn new() -> (r: TargetBoard)
        ensures
            r@ == Map::<u16, Target>::empty(),
    {
        TargetBoard { targets: HashMap::new() }
    }

    /// Merges an update: an unknown target is added; a known one is replaced
    /// when the update wins (see `wins`).
    pub fn merge(&mut self, update: TargetUpdate)
        ensures
            final(self)@ == merge_spec(old(self)@, update.target),
    {
        proof {
            use_type_invariant(&*self);
        }
        let incoming = update.target;
        let replace = match self.targets.get(&incoming.id) {
            None => true,
            Some(existing) => {
                let ri = rank(incoming.state);
                let re = rank(existing.state);
                if ri > re {
                    true
                } else if ri == re {
                    if incoming.updated_at_ms != existing.updated_at_ms {
                        incoming.updated_at_ms > existing.updated_at_ms
                    } else {
                        tie_wins_exec(&incoming, existing)
                    }
                } else {
                    false
                }
            },
        };
        if replace {
            let mut targets: HashMap<u16, Target> = HashMap::new();
            std::mem::swap(&mut targets, &mut self.targets);
            targets.insert(incoming.id, incoming);
            self.targets = targets;
        }
    }

    /// The targets, in increasing id order.
    pub fn targets(&self) -> (r: Vec<Target>)
        ensures
            forall|i: int| 0 <= i < r@.len() ==> self@.contains_key((#[trigger] r@[i]).id) && r@[i] == self@[r@[i].id],
            forall|i: int, j: int| 0 <= i < j < r@.len() ==> (#[trigger] r@[i]).id < (#[trigger] r@[j]).id,
            forall|id: u16| #[trigger] self@.contains_key(id) ==> exists|i: int| 0 <= i < r@.len() && (#[trigger] r@[i]).id == id,
    {
        let mut out: Vec<Target> = Vec::new();
        let mut id: u32 = 0;
        while id < 65536
            invariant
                id <= 65536,
                forall|i: int| 0 <= i < out@.len() ==> self@.contains_key((#[trigger] out@[i]).id)
                    && out@[i] == self@[out@[i].id] && out@[i].id < id,
                forall|i: int, j: int| 0 <= i < j < out@.len() ==> (#[trigger] out@[i]).id < (#[trigger] out@[j]).id,
                forall|k: u16| k < id && #[trigger] self@.contains_key(k) ==> exists|i: int| 0 <= i < out@.len() && (#[trigger] out@[i]).id == k,
            decreases 65536 - id,
        {
            match self.targets.get(&(id as u16)) {
                Some(t) => {
                    let ghost before = out@;
                    out.push(*t);
                    proof {
                        use_type_invariant(self);
                        assert(self.targets@.contains_key(id as u16));
                        assert forall|i: int| 0 <= i < before.len() implies out@[i] == before[i] by {}
                        assert forall|k: u16| k < id + 1 && #[trigger] self@.contains_key(k)
                            implies exists|i: int| 0 <= i < out@.len() && (#[trigger] out@[i]).id == k by {
                            if k < id {
                                let i = choose|i: int| 0 <= i < before.len() && (#[trigger] before[i]).id == k;
                                assert(out@[i] == before[i]);
                            } else {
                                assert(out@[out@.len() - 1].id == k);
                            }
                        }
                    }
                },
                None => {},
            }
            id = id + 1;
        }
        out
    }

    /// The target with id `id`, if known.
    pub fn get(&self, id: u16) -> (r: Option<&Target>)
        ensures
            r is Some <==> self@.contains_key(id),
            r matches Some(t) ==> *t == self@[id],
    {
        self.targets.get(&id)
    }
}

} // verus!
