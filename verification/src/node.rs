use vstd::prelude::*;

use crate::crdt::{Target, TargetBoard, TargetState, TargetUpdate};
use crate::errors::FrameError;
use crate::image_cache::{count_assembled, insert_spec, shard_view, ImageCache};
use crate::image_codec::{decode_jpeg, encode_jpeg, image_shards, jpeg_decoding, jpeg_encoding, chunk_count, image_shard_views};
use crate::messages::{Bda, BdaResult, ChannelHop, Command, CommandOp, ImageShard, JamAlert, RequestImage, TargetDetection, TargetKind};
use crate::crypto::XCHACHA20_MAX_LEN;
use crate::frame::{build_frame, build_frame_for_route, bytes_to_vec, frame_verdict, sent_frame, TacticalMessage};
use crate::headers::{routed_header_bytes, RoutedHeader, ROUTED_HEADER_LEN};
use crate::nonce_cache::NonceEntry;
use crate::identity::Identity;
use crate::olsr::OlsrState;
use crate::priority::{MsgKind, Priority};
use crate::priority::{BROADCAST, MAX_HOPS};

verus! {

/// JPEG quality of served images.
pub const IMAGE_JPEG_QUALITY: u8 = 75;
/// The two channels a jammed mesh alternates between.
pub const FALLBACK_CHANNEL_A: u8 = 36;
pub const FALLBACK_CHANNEL_B: u8 = 40;

/// What the receive path does with a verified frame.
#[derive(Clone, Copy, Debug, PartialEq, Eq, Structural)]
pub struct RxRouting {
    /// Hand the payload to the local handlers.
    pub deliver_local: bool,
    /// Flood it on (broadcast that has not used up its hops).
    pub rebroadcast: bool,
    /// Forward it towards its unicast destination.
    pub forward_unicast: bool,
}

/// The routing decision for a frame to `dst` that has taken `hops_taken` hops,
/// received by `local_id`.
pub fn route_decision(dst: u8, local_id: u8, hops_taken: u8) -> (r: RxRouting)
    ensures
        r.deliver_local == (dst == local_id || dst == BROADCAST),
        r.rebroadcast == (dst == BROADCAST && hops_taken < MAX_HOPS),
        r.forward_unicast == (dst != local_id && dst != BROADCAST),
{
    RxRouting {
        deliver_local: dst == local_id || dst == BROADCAST,
        rebroadcast: dst == BROADCAST && hops_taken < MAX_HOPS,
        forward_unicast: dst != local_id && dst != BROADCAST,
    }
}

/// The attack counter a rejected frame increments.
#[derive(Clone, Copy, Debug, PartialEq, Eq, Structural)]
pub enum DropCounter {
    BadSignature,
    TimeWindow,
    Replay,
}

/// The counter a parse failure is counted under; other failures are not counted.
pub fn drop_counter(e: &FrameError) -> (r: Option<DropCounter>)
    ensures
        r == match *e {
            FrameError::BadSignature => Some(DropCounter::BadSignature),
            FrameError::TimeWindowExpired => Some(DropCounter::TimeWindow),
            FrameError::ReplayedNonce => Some(DropCounter::Replay),
            _ => None::<DropCounter>,
        },
{
    match e {
        FrameError::BadSignature => Some(DropCounter::BadSignature),
        FrameError::TimeWindowExpired => Some(DropCounter::TimeWindow),
        FrameError::ReplayedNonce => Some(DropCounter::Replay),
        _ => None,
    }
}

/// The next hop towards `dst` from the route table, if there is a route.
pub fn next_hop_to(state: &OlsrState, dst: u8) -> (r: Option<u8>)
    ensures
        r is Some <==> state.routes@.contains_key(dst),
        r matches Some(h) ==> h == state.routes@[dst].next_hop,
{
    match state.route_to(dst) {
        Some(route) => Some(route.next_hop),
        None => None,
    }
}

/// How an outgoing application message is addressed.
#[derive(Clone, Copy, Debug, PartialEq, Eq, Structural)]
pub enum Addressing {
    /// Broadcast to every node.
    Broadcast,
    /// Unicast through this next hop.
    Via(u8),
    /// No route: the message is dropped.
    NoRoute,
}

/// Addressing of a message to `dst`: broadcast for the broadcast address,
/// else through the routed next hop, or dropped without a route.
pub fn outbound_addressing(state: &OlsrState, dst: u8) -> (r: Addressing)
    ensures
        dst == BROADCAST ==> r == Addressing::Broadcast,
        dst != BROADCAST && state.routes@.contains_key(dst) ==> r == Addressing::Via(state.routes@[dst].next_hop),
        dst != BROADCAST && !state.routes@.contains_key(dst) ==> r == Addressing::NoRoute,
{
    if dst == BROADCAST {
        return Addressing::Broadcast;
    }
    match next_hop_to(state, dst) {
        Some(h) => Addressing::Via(h),
        None => Addressing::NoRoute,
    }
}

/// Jam-detection state step: given whether a jam was already reported and
/// whether the window looks jammed now, returns the new state and whether to
/// raise a jam alert (only on the transition into jamming).
pub fn jam_step(jam_detected: bool, jammed_now: bool) -> (r: (bool, bool))
    ensures
        r.0 == jammed_now,
        r.1 == (!jam_detected && jammed_now),
{
    let raise = !jam_detected && jammed_now;
    let mut detected = jam_detected;
    if raise {
        detected = true;
    }
    if detected && !jammed_now {
        detected = false;
    }
    (detected, raise)
}

/// The channel a jammed node hops to: the other of the two fallback channels.
pub open spec fn hop_channel_spec(channel: u8) -> u8 {
    if channel == FALLBACK_CHANNEL_A { FALLBACK_CHANNEL_B } else { FALLBACK_CHANNEL_A }
}

/// The channel hop a jam alert triggers on node `local_id` in stream epoch
/// `current_epoch`: the other fallback channel, the next epoch.
pub fn plan_channel_hop(ja: &JamAlert, current_epoch: u32, local_id: u8) -> (r: ChannelHop)
    requires
        current_epoch < u32::MAX,
    ensures
        r == (ChannelHop { new_channel: hop_channel_spec(ja.channel), new_epoch: (current_epoch + 1) as u32, initiated_by: local_id }),
{
    let ch = if ja.channel == FALLBACK_CHANNEL_A { FALLBACK_CHANNEL_B } else { FALLBACK_CHANNEL_A };
    ChannelHop { new_channel: ch, new_epoch: current_epoch + 1, initiated_by: local_id }
}

/// The board update a detection makes: the target detected by the detector,
/// at the detection time.
pub fn detection_update(td: &TargetDetection) -> (r: TargetUpdate)
    ensures
        r.target == (Target {
            id: td.target_id,
            kind: td.kind,
            state: TargetState::Detected,
            lat_bits: td.lat_bits,
            lon_bits: td.lon_bits,
            updated_at_ms: td.detected_at_ms,
            assigned_to: Some(td.detector),
        }),
{
    TargetUpdate {
        target: Target {
            id: td.target_id,
            kind: td.kind,
            state: TargetState::Detected,
            lat_bits: td.lat_bits,
            lon_bits: td.lon_bits,
            updated_at_ms: td.detected_at_ms,
            assigned_to: Some(td.detector),
        },
    }
}

/// Position and kind kept from a known target (origin and `Unknown` otherwise).
pub open spec fn kept_fields(existing: Option<Target>) -> (u32, u32, TargetKind) {
    match existing {
        Some(t) => (t.lat_bits, t.lon_bits, t.kind),
        None => (0, 0, TargetKind::Unknown),
    }
}

fn kept(existing: Option<&Target>) -> (r: (u32, u32, TargetKind))
    ensures
        r == kept_fields(match existing {
            Some(t) => Some(*t),
            None => None,
        }),
{
    match existing {
        Some(t) => (t.lat_bits, t.lon_bits, t.kind),
        None => (0, 0, TargetKind::Unknown),
    }
}

/// The state a damage assessment reports: destroyed, or still engaged.
pub open spec fn bda_state(r: BdaResult) -> TargetState {
    match r {
        BdaResult::Destroyed => TargetState::Destroyed,
        BdaResult::Damaged => TargetState::Engaged,
        BdaResult::Miss => TargetState::Engaged,
    }
}

/// The board update a damage assessment makes: the assessed state at the
/// assessment time, keeping the known position and kind, unassigned.
pub fn bda_update(bda: &Bda, board: &TargetBoard) -> (r: TargetUpdate)
    ensures
        ({
            let (lat, lon, kind) = kept_fields(if board@.contains_key(bda.target_id) { Some(board@[bda.target_id]) } else { None });
            r.target == (Target {
                id: bda.target_id,
                kind,
                state: bda_state(bda.result),
                lat_bits: lat,
                lon_bits: lon,
                updated_at_ms: bda.at_ms,
                assigned_to: None,
            })
        }),
{
    let (lat, lon, kind) = kept(board.get(bda.target_id));
    let state = match bda.result {
        BdaResult::Destroyed => TargetState::Destroyed,
        BdaResult::Damaged => TargetState::Engaged,
        BdaResult::Miss => TargetState::Engaged,
    };
    TargetUpdate {
        target: Target { id: bda.target_id, kind, state, lat_bits: lat, lon_bits: lon, updated_at_ms: bda.at_ms, assigned_to: None },
    }
}

/// The state and assignee a command sets.
pub open spec fn command_effect(cmd: Command) -> (TargetState, Option<u8>) {
    match cmd.op {
        CommandOp::Engage => (TargetState::Engaged, None),
        CommandOp::Abort => (TargetState::Aborted, None),
        CommandOp::Reassign => (TargetState::Assigned, Some(cmd.issued_by)),
    }
}

/// Each command has its own effect: an abort aborts, an engage engages, a
/// reassignment assigns the target to the issuer, and only a reassignment
/// names an assignee.
pub proof fn lemma_command_effects(cmd: Command)
    ensures
        command_effect(cmd).0 == TargetState::Aborted <==> cmd.op == CommandOp::Abort,
        command_effect(cmd).0 == TargetState::Engaged <==> cmd.op == CommandOp::Engage,
        command_effect(cmd).0 == TargetState::Assigned <==> cmd.op == CommandOp::Reassign,
        command_effect(cmd).1 is Some <==> cmd.op == CommandOp::Reassign,
        cmd.op == CommandOp::Reassign ==> command_effect(cmd).1 == Some(cmd.issued_by),
{
}

/// The board update a command received at `now_ms` makes: the commanded
/// state (a reassignment assigns the target to the issuer), keeping the known
/// position and kind.
pub fn command_update(cmd: &Command, board: &TargetBoard, now_ms: u64) -> (r: TargetUpdate)
    ensures
        ({
            let (lat, lon, kind) = kept_fields(if board@.contains_key(cmd.target_id) { Some(board@[cmd.target_id]) } else { None });
            r.target == (Target {
                id: cmd.target_id,
                kind,
                state: command_effect(*cmd).0,
                lat_bits: lat,
                lon_bits: lon,
                updated_at_ms: now_ms,
                assigned_to: command_effect(*cmd).1,
            })
        }),
{
    let (lat, lon, kind) = kept(board.get(cmd.target_id));
    let (state, assigned_to) = match cmd.op {
        CommandOp::Engage => (TargetState::Engaged, None),
        CommandOp::Abort => (TargetState::Aborted, None),
        CommandOp::Reassign => (TargetState::Assigned, Some(cmd.issued_by)),
    };
    TargetUpdate { target: Target { id: cmd.target_id, kind, state, lat_bits: lat, lon_bits: lon, updated_at_ms: now_ms, assigned_to } }
}

/// Progress of an image being received.
#[derive(Clone, Copy, Debug, PartialEq, Eq, Structural)]
pub struct ImageRxProgress {
    pub target_id: u16,
    pub blocks_done: u8,
    pub blocks_total: u8,
}

/// What inserting a received image shard led to.
#[derive(Clone, Debug)]
pub enum ShardOutcome {
    /// The image is complete: its bytes.
    Completed(Vec<u8>),
    /// Still receiving.
    Progress(ImageRxProgress),
}

/// Inserts a received image shard into the cache: the complete image when the
/// shard completed it, else the progress (blocks reassembled of the announced
/// total, at least 1).
pub fn receive_image_shard(cache: &mut ImageCache, shard: ImageShard) -> (r: ShardOutcome)
    ensures
        ({
            let (m, done) = insert_spec(old(cache)@, shard_view(shard));
            &&& final(cache)@ == m
            &&& done ==> (r matches ShardOutcome::Completed(img) && m.complete.contains_key(shard.target_id)
                && img@ == m.complete[shard.target_id])
            &&& !done ==> r == ShardOutcome::Progress(ImageRxProgress {
                target_id: shard.target_id,
                blocks_done: count_assembled(m.assembled, shard.target_id,
                    if m.expected.contains_key(shard.target_id) { m.expected[shard.target_id] as nat } else { 1 }) as u8,
                blocks_total: if shard.total_blocks > 1 { shard.total_blocks } else { 1 },
            })
        }),
{
    let target_id = shard.target_id;
    let total = if shard.total_blocks > 1 { shard.total_blocks } else { 1 };
    let completed = cache.insert_shard(shard);
    if completed {
        match cache.get_complete(target_id) {
            Some(img) => ShardOutcome::Completed(crate::frame::bytes_to_vec(img)),
            None => ShardOutcome::Completed(Vec::new()),
        }
    } else {
        let done = cache.blocks_assembled(target_id);
        ShardOutcome::Progress(ImageRxProgress { target_id, blocks_done: done, blocks_total: total })
    }
}

/// The shards node `local_id` serves for an image request, given its local
/// greyscale image (pixels, width, height): none for its own request or
/// without an image, else the image JPEG-encoded at `IMAGE_JPEG_QUALITY` and
/// cut into shards; none when encoding fails.
pub fn image_reply(req: &RequestImage, local_id: u8, local_image: &Option<(Vec<u8>, u32, u32)>) -> (r: Option<Vec<ImageShard>>)
    ensures
        req.requester == local_id ==> r is None,
        local_image is None ==> r is None,
        req.requester != local_id && local_image is Some ==> ({
            let img = local_image->Some_0;
            match jpeg_encoding(img.0@, img.1, img.2, IMAGE_JPEG_QUALITY) {
                None => r is None,
                Some(jpeg) => r matches Some(shards) && shards@.len() == chunk_count(jpeg.len())
                    && forall|i: int| 0 <= i < shards@.len() ==> shard_view(#[trigger] shards@[i]) == image_shard_views(req.target_id, jpeg)[i],
            }
        }),
{
    if req.requester == local_id {
        return None;
    }
    match local_image {
        None => None,
        Some((raw, width, height)) => match encode_jpeg(raw.as_slice(), *width, *height, IMAGE_JPEG_QUALITY) {
            None => None,
            Some(jpeg) => Some(image_shards(req.target_id, jpeg.as_slice())),
        },
    }
}

/// Width and height assumed for received image bytes that do not decode.
pub const RAW_FALLBACK_WIDTH: u32 = 640;
pub const RAW_FALLBACK_HEIGHT: u32 = 480;

/// The picture shown for a reassembled image: its decoding (greyscale pixels,
/// width, height), or, when it does not decode, the bytes themselves shown as
/// a `RAW_FALLBACK_WIDTH` x `RAW_FALLBACK_HEIGHT` image.
pub fn decode_image_or_raw(bytes: Vec<u8>) -> (r: (Vec<u8>, u32, u32))
    ensures
        match jpeg_decoding(bytes@) {
            Some((px, w, h)) => r.0@ == px && r.1 == w && r.2 == h,
            None => r.0@ == bytes@ && r.1 == RAW_FALLBACK_WIDTH && r.2 == RAW_FALLBACK_HEIGHT,
        },
{
    match decode_jpeg(bytes.as_slice()) {
        Some(img) => img,
        None => (bytes, RAW_FALLBACK_WIDTH, RAW_FALLBACK_HEIGHT),
    }
}

/// A key press of the terminal UI, or quitting it.
#[derive(Clone, Copy, Debug, PartialEq, Eq, Structural)]
pub enum TuiEvent {
    KeyPress(char),
    Quit,
}

/// What a key press asks the node to do.
#[derive(Clone, Copy, Debug, PartialEq, Eq, Structural)]
pub enum KeyAction {
    Quit,
    BroadcastDetection,
    BroadcastBda,
    RequestImage,
    ToggleSpoofer,
    ToggleJammer,
    ToggleBlackout,
    DumpRouting,
    /// Assign the selected target to the striker with this number (1 to 9).
    AssignToStriker(u8),
    Ignore,
}

/// The action of a UI event: `q` quits, `t` detects, `f` reports a kill, `i`
/// requests an image, `s`, `j`, `b` toggle spoofer, jammer and blackout, `o`
/// dumps routing, a digit 1 to 9 assigns the selected target to the striker
/// with that number; anything else is ignored.
pub fn key_action(ev: TuiEvent) -> (r: KeyAction)
    ensures
        r == match ev {
            TuiEvent::Quit => KeyAction::Quit,
            TuiEvent::KeyPress(c) => if c == 'q' {
                KeyAction::Quit
            } else if c == 't' {
                KeyAction::BroadcastDetection
            } else if c == 'f' {
                KeyAction::BroadcastBda
            } else if c == 'i' {
                KeyAction::RequestImage
            } else if c == 's' {
                KeyAction::ToggleSpoofer
            } else if c == 'j' {
                KeyAction::ToggleJammer
            } else if c == 'b' {
                KeyAction::ToggleBlackout
            } else if c == 'o' {
                KeyAction::DumpRouting
            } else if '1' <= c && c <= '9' {
                KeyAction::AssignToStriker((c as u32 - '0' as u32) as u8)
            } else {
                KeyAction::Ignore
            },
        },
{
    match ev {
        TuiEvent::Quit => KeyAction::Quit,
        TuiEvent::KeyPress(c) => {
            if c == 'q' {
                KeyAction::Quit
            } else if c == 't' {
                KeyAction::BroadcastDetection
            } else if c == 'f' {
                KeyAction::BroadcastBda
            } else if c == 'i' {
                KeyAction::RequestImage
            } else if c == 's' {
                KeyAction::ToggleSpoofer
            } else if c == 'j' {
                KeyAction::ToggleJammer
            } else if c == 'b' {
                KeyAction::ToggleBlackout
            } else if c == 'o' {
                KeyAction::DumpRouting
            } else if '1' <= c && c <= '9' {
                let d: u32 = (c as u32) - ('0' as u32);
                KeyAction::AssignToStriker(d as u8)
            } else {
                KeyAction::Ignore
            }
        },
    }
}

/// Target id for a kill report: the highest known id, 100 with none.
pub fn bda_target(board: &TargetBoard) -> (r: u16)
    ensures
        (forall|k: u16| !#[trigger] board@.contains_key(k)) ==> r == 100,
        (exists|k: u16| #[trigger] board@.contains_key(k)) ==> board@.contains_key(r)
            && forall|k: u16| #[trigger] board@.contains_key(k) ==> k <= r,
{
    let ts = board.targets();
    if ts.len() == 0 {
        proof {
            assert forall|k: u16| !#[trigger] board@.contains_key(k) by {
                if board@.contains_key(k) {
                    let i = choose|i: int| 0 <= i < ts@.len() && (#[trigger] ts@[i]).id == k;
                }
            }
        }
        100
    } else {
        let last = ts[ts.len() - 1].id;
        proof {
            assert forall|k: u16| #[trigger] board@.contains_key(k) implies k <= last by {
                let i = choose|i: int| 0 <= i < ts@.len() && (#[trigger] ts@[i]).id == k;
                if i < ts@.len() - 1 {
                    assert(ts@[i].id < ts@[ts@.len() - 1].id);
                }
            }
        }
        last
    }
}

/// Target id for an image request: the lowest known id, 100 with none.
pub fn image_target(board: &TargetBoard) -> (r: u16)
    ensures
        (forall|k: u16| !#[trigger] board@.contains_key(k)) ==> r == 100,
        (exists|k: u16| #[trigger] board@.contains_key(k)) ==> board@.contains_key(r)
            && forall|k: u16| #[trigger] board@.contains_key(k) ==> r <= k,
{
    let ts = board.targets();
    if ts.len() == 0 {
        proof {
            assert forall|k: u16| !#[trigger] board@.contains_key(k) by {
                if board@.contains_key(k) {
                    let i = choose|i: int| 0 <= i < ts@.len() && (#[trigger] ts@[i]).id == k;
                }
            }
        }
        100
    } else {
        let first = ts[0].id;
        proof {
            assert forall|k: u16| #[trigger] board@.contains_key(k) implies first <= k by {
                let i = choose|i: int| 0 <= i < ts@.len() && (#[trigger] ts@[i]).id == k;
                if i > 0 {
                    assert(ts@[0].id < ts@[i].id);
                }
            }
        }
        first
    }
}

/// The command a striker hotkey sends: reassign the selected target (the one
/// `image_target` picks) to striker `striker`.
pub fn assign_command(board: &TargetBoard, striker: u8) -> (r: Command)
    ensures
        r.op == CommandOp::Reassign,
        r.issued_by == striker,
        (forall|k: u16| !#[trigger] board@.contains_key(k)) ==> r.target_id == 100,
        (exists|k: u16| #[trigger] board@.contains_key(k)) ==> board@.contains_key(r.target_id)
            && forall|k: u16| #[trigger] board@.contains_key(k) ==> r.target_id <= k,
{
    Command { target_id: image_target(board), op: CommandOp::Reassign, issued_by: striker }
}

/// Builds the frame that carries `payload` to `dst`: a broadcast frame for the
/// broadcast address, else a frame whose routing header names the routed next
/// hop; `None` when there is no route.
pub fn route_frame(state: &OlsrState, identity: &Identity, payload: Vec<u8>, kind: MsgKind, dst: u8, prio: Priority) -> (r: Option<Vec<u8>>)
    requires
        payload@.len() <= XCHACHA20_MAX_LEN,
    ensures
        dst == BROADCAST ==> (r matches Some(f) && sent_frame(f@, kind, payload@, prio, dst, *identity, identity.node_id)),
        dst != BROADCAST && state.routes@.contains_key(dst) ==> (r matches Some(f)
            && sent_frame(f@, kind, payload@, prio, dst, *identity, state.routes@[dst].next_hop)),
        dst != BROADCAST && !state.routes@.contains_key(dst) ==> r is None,
{
    let msg = TacticalMessage { kind, payload };
    if dst == BROADCAST {
        return Some(build_frame(&msg, prio, dst, identity));
    }
    match next_hop_to(state, dst) {
        Some(hop) => Some(build_frame_for_route(&msg, prio, dst, identity, hop)),
        None => None,
    }
}

/// The routing header a relay writes: itself as last hop, one more hop taken.
pub open spec fn relayed_header(routed: RoutedHeader, local_id: u8) -> RoutedHeader {
    RoutedHeader {
        last_hop_id: local_id,
        hops_taken: (routed.hops_taken + 1) as u8,
        flags: routed.flags,
        reserved: routed.reserved,
    }
}

/// The frame node `local_id` rebroadcasts for a received frame whose routing
/// header is `routed`: the same frame with the routing header naming this node
/// as last hop and counting one more hop. The signed part is unchanged.
pub fn relay_frame(raw: &[u8], routed: &RoutedHeader, local_id: u8) -> (r: Vec<u8>)
    requires
        raw@.len() >= ROUTED_HEADER_LEN,
        routed.hops_taken < MAX_HOPS,
    ensures
        r@ == routed_header_bytes(relayed_header(*routed, local_id)) + raw@.subrange(4, raw@.len() as int),
{
    let hdr = RoutedHeader {
        last_hop_id: local_id,
        hops_taken: routed.hops_taken + 1,
        flags: routed.flags,
        reserved: routed.reserved,
    };
    let mut out = bytes_to_vec(hdr.to_bytes().as_slice());
    crate::frame::append_bytes(&mut out, &raw[ROUTED_HEADER_LEN..raw.len()]);
    out
}

/// Forwarding does not change how a receiver judges a frame: rewriting the
/// routing header leaves the verdict as it was.
pub proof fn lemma_relay_preserves_verdict(
    raw: Seq<u8>, hdr: Seq<u8>, keys: Map<u8, [u8; 32]>, cache: Seq<NonceEntry>, local: u64, key: Seq<u8>,
)
    requires
        raw.len() >= ROUTED_HEADER_LEN,
        hdr.len() == ROUTED_HEADER_LEN,
    ensures
        frame_verdict(hdr + raw.subrange(4, raw.len() as int), keys, cache, local, key)
            == frame_verdict(raw, keys, cache, local, key),
{
    let r = hdr + raw.subrange(4, raw.len() as int);
    assert(r.len() == raw.len());
    if raw.len() >= 112 {
        assert(r.subrange(4, 48) =~= raw.subrange(4, 48));
        assert(r.subrange(8, 16) =~= raw.subrange(8, 16));
        assert(r.subrange(16, 28) =~= raw.subrange(16, 28));
        assert(r.subrange(28, 40) =~= raw.subrange(28, 40));
        assert(r[4] == raw[4]);
        assert(r.subrange(r.len() - 64, r.len() as int) =~= raw.subrange(raw.len() - 64, raw.len() as int));
        assert(r.subrange(48, r.len() - 64) =~= raw.subrange(48, raw.len() - 64));
    }
}

/// Most log lines kept.
pub const LOG_CAPACITY: usize = 200;

/// The newest log lines, oldest first, at most `LOG_CAPACITY` of them.
pub struct EventLog {
    lines: std::collections::VecDeque<String>,
}

impl View for EventLog {
    type V = Seq<Seq<char>>;

    closed spec fn view(&self) -> Seq<Seq<char>> {
        self.lines@.map_values(|l: String| l@)
    }
}

impl EventLog {
    /// An empty log.
    pub fn new() -> (r: EventLog)
        ensures
            r@ == Seq::<Seq<char>>::empty(),
    {
        let r = EventLog { lines: std::collections::VecDeque::new() };
        assert(r@ =~= Seq::<Seq<char>>::empty());
        r
    }

    /// Appends a line, dropping the oldest one when the log is full.
    pub fn push_log(&mut self, msg: String)
        ensures
            old(self)@.len() >= LOG_CAPACITY ==> final(self)@ == old(self)@.drop_first().push(msg@),
            old(self)@.len() < LOG_CAPACITY ==> final(self)@ == old(self)@.push(msg@),
    {
        let ghost m = msg@;
        let ghost before = self.lines@;
        if self.lines.len() >= LOG_CAPACITY {
            let _ = self.lines.pop_front();
            assert(self.lines@ =~= before.subrange(1, before.len() as int));
        }
        let ghost mid = self.lines@;
        self.lines.push_back(msg);
        proof {
            assert(self@ =~= mid.map_values(|l: String| l@).push(m));
            if before.len() >= LOG_CAPACITY {
                assert(mid.map_values(|l: String| l@) =~= before.map_values(|l: String| l@).drop_first());
            }
        }
    }

    /// Number of lines.
    pub fn len(&self) -> (r: usize)
        ensures
            r == self@.len(),
    {
        self.lines.len()
    }

    /// Line `i`, oldest first.
    pub fn line(&self, i: usize) -> (r: &String)
        requires
            i < self@.len(),
        ensures
            r@ == self@[i as int],
    {
        &self.lines[i]
    }
}

} // verus!
