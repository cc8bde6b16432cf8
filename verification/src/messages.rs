use vstd::prelude::*;

verus! {

/// What kind of thing a target is.
#[derive(Clone, Copy, Debug, PartialEq, Eq, Structural)]
pub enum TargetKind {
    Vehicle,
    Personnel,
    Emplacement,
    Unknown,
}

/// An order about a target.
#[derive(Clone, Copy, Debug, PartialEq, Eq, Structural)]
pub enum CommandOp {
    Engage,
    Abort,
    Reassign,
}

/// Outcome of a battle damage assessment.
#[derive(Clone, Copy, Debug, PartialEq, Eq, Structural)]
pub enum BdaResult {
    Destroyed,
    Damaged,
    Miss,
}

/// A sensor detected a target. Coordinates are IEEE-754 `f32` bit patterns.
#[derive(Clone, Copy, Debug, PartialEq, Eq, Structural)]
pub struct TargetDetection {
    pub target_id: u16,
    pub kind: TargetKind,
    pub lat_bits: u32,
    pub lon_bits: u32,
    pub detected_at_ms: u64,
    pub detector: u8,
}

/// An order for a target, from node `issued_by`.
#[derive(Clone, Copy, Debug, PartialEq, Eq, Structural)]
pub struct Command {
    pub target_id: u16,
    pub op: CommandOp,
    pub issued_by: u8,
}

/// A damage assessment for a target.
#[derive(Clone, Copy, Debug, PartialEq, Eq, Structural)]
pub struct Bda {
    pub target_id: u16,
    pub result: BdaResult,
    pub at_ms: u64,
}

/// A node's periodic status. Coordinates are IEEE-754 `f32` bit patterns.
#[derive(Clone, Copy, Debug, PartialEq, Eq, Structural)]
pub struct StateReport {
    pub node_id: u8,
    pub battery_pct: u8,
    pub lat_bits: u32,
    pub lon_bits: u32,
}

/// One shard of an image: block `block_id` of `total_blocks` (0 or 1: a
/// single-block image), shard `index` of the block's `n`, `k` of which rebuild it.
#[derive(Clone, Debug)]
pub struct ImageShard {
    pub target_id: u16,
    pub total_blocks: u8,
    pub block_id: u8,
    pub index: u8,
    pub k: u8,
    pub n: u8,
    pub data: Vec<u8>,
}

/// A request for the image of a target.
#[derive(Clone, Copy, Debug, PartialEq, Eq, Structural)]
pub struct RequestImage {
    pub target_id: u16,
    pub requester: u8,
}

/// A node detected jamming on `channel`.
#[derive(Clone, Copy, Debug, PartialEq, Eq, Structural)]
pub struct JamAlert {
    pub detected_by: u8,
    pub channel: u8,
    pub at_ms: u64,
}

/// A move of the mesh to another channel and stream epoch.
#[derive(Clone, Copy, Debug, PartialEq, Eq, Structural)]
pub struct ChannelHop {
    pub new_channel: u8,
    pub new_epoch: u32,
    pub initiated_by: u8,
}

/// A distress call.
#[derive(Clone, Copy, Debug, PartialEq, Eq, Structural)]
pub struct Mayday {
    pub node_id: u8,
    pub at_ms: u64,
}

/// An acknowledgement.
#[derive(Clone, Copy, Debug, PartialEq, Eq, Structural)]
pub struct AckPayload {
    pub acked_seq: u64,
}

/// A chat line.
#[derive(Clone, Debug)]
pub struct ChatMessage {
    pub from: u8,
    pub text: String,
}

/// An opaque routing-protocol payload carried as an application message.
#[derive(Clone, Debug)]
pub struct OlsrMessage {
    pub payload: Vec<u8>,
}

/// Every application message.
#[derive(Clone, Debug)]
pub enum TacticalMessage {
    TargetDetection(TargetDetection),
    Command(Command),
    Bda(Bda),
    StateReport(StateReport),
    ImageShard(ImageShard),
    RequestImage(RequestImage),
    JamAlert(JamAlert),
    ChannelHop(ChannelHop),
    Mayday(Mayday),
    Olsr(OlsrMessage),
    Ack(AckPayload),
    Chat(ChatMessage),
}

} // verus!
