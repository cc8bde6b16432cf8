use vstd::prelude::*;

verus! {

/// Broadcast destination address.
pub const BROADCAST: u8 = 0xFF;
/// Largest frame the radio layer carries.
pub const MAX_FRAME_BYTES: usize = 1500;
/// Seconds between stream-id epoch rotations.
pub const EPOCH_ROTATION_SECS: u64 = 300;
/// Milliseconds during which old and new streams overlap after a rotation.
pub const OVERLAP_MS: u64 = 1000;
/// Hop cap for flooded broadcast frames.
pub const MAX_HOPS: u8 = 8;

/// The four transmission priority classes, most urgent first.
#[derive(Clone, Copy, Debug, PartialEq, Eq, Hash, PartialOrd, Ord)]
pub enum Priority {
    Emergency,
    Critical,
    High,
    Bulk,
}

/// The numeric code of a priority on the wire.
pub open spec fn priority_code(p: Priority) -> u8 {
    match p {
        Priority::Emergency => 0,
        Priority::Critical => 1,
        Priority::High => 2,
        Priority::Bulk => 3,
    }
}

impl Priority {
    /// Decodes a wire priority code.
    pub fn from_u8(v: u8) -> (r: Option<Priority>)
        ensures
            r is Some <==> v < 4,
            r matches Some(p) ==> priority_code(p) == v,
    {
        match v {
            0 => Some(Priority::Emergency),
            1 => Some(Priority::Critical),
            2 => Some(Priority::High),
            3 => Some(Priority::Bulk),
            _ => None,
        }
    }

    /// The wire code of this priority (`prio as u8` in the wire layout).
    pub fn to_u8(&self) -> (r: u8)
        ensures
            r == priority_code(*self),
    {
        match self {
            Priority::Emergency => 0,
            Priority::Critical => 1,
            Priority::High => 2,
            Priority::Bulk => 3,
        }
    }
}

/// Kind of payload a frame carries.
#[derive(Clone, Copy, Debug, PartialEq, Eq, Hash)]
pub enum MsgKind {
    Data,
    OlsrHello,
    OlsrTc,
    Ack,
    SessionKeyRotation,
}

/// The numeric code of a message kind on the wire.
pub open spec fn msg_kind_code(k: MsgKind) -> u8 {
    match k {
        MsgKind::Data => 0,
        MsgKind::OlsrHello => 1,
        MsgKind::OlsrTc => 2,
        MsgKind::Ack => 3,
        MsgKind::SessionKeyRotation => 4,
    }
}

impl MsgKind {
    /// Decodes a wire message-kind code.
    pub fn from_u8(v: u8) -> (r: Option<MsgKind>)
        ensures
            r is Some <==> v < 5,
            r matches Some(k) ==> msg_kind_code(k) == v,
    {
        match v {
            0 => Some(MsgKind::Data),
            1 => Some(MsgKind::OlsrHello),
            2 => Some(MsgKind::OlsrTc),
            3 => Some(MsgKind::Ack),
            4 => Some(MsgKind::SessionKeyRotation),
            _ => None,
        }
    }

    /// The wire code of this kind.
    pub fn to_u8(&self) -> (r: u8)
        ensures
            r == msg_kind_code(*self),
    {
        match self {
            MsgKind::Data => 0,
            MsgKind::OlsrHello => 1,
            MsgKind::OlsrTc => 2,
            MsgKind::Ack => 3,
            MsgKind::SessionKeyRotation => 4,
        }
    }
}

/// Link metadata attached to a received frame.
#[derive(Clone, Copy, Debug)]
pub struct RxMeta {
    pub rssi_dbm: i8,
    pub stream_id: u32,
    pub seq: u32,
}

/// A frame as delivered by the radio backend.
pub struct RxFrame {
    pub data: Vec<u8>,
    pub rssi_dbm: i8,
    pub stream_id: u32,
    pub seq: u32,
}

} // verus!
