use vstd::prelude::*;

use crate::bytes::{le_bytes_u32, lemma_le_u32_round_trip, u32_from_le, u32_of_le, u32_to_le};
use crate::crypto::{blake3_digest, blake3_hash};
use crate::frame::{append_bytes, bytes_to_vec};
use crate::priority::{priority_code, Priority};

verus! {

/// Base UDP port of the four priority streams (one port per priority).
pub const UDP_BASE_PORT: u16 = 42800;
/// Offset of the sender id in a frame (after the 4-byte routing header).
pub const SRC_NODE_OFFSET: usize = 4;
/// Length of the UDP datagram header: stream id and sequence number.
pub const UDP_HEADER_LEN: usize = 8;

/// The ASCII label of a priority stream.
pub open spec fn stream_label(prio: Priority) -> Seq<u8> {
    match prio {
        Priority::Emergency => seq![101u8, 109, 101, 114, 103, 101, 110, 99, 121],
        Priority::Critical => seq![99u8, 114, 105, 116, 105, 99, 97, 108],
        Priority::High => seq![104u8, 105, 103, 104],
        Priority::Bulk => seq![98u8, 117, 108, 107],
    }
}

/// The stream id of a priority in an epoch: the first four bytes
/// (little-endian) of the BLAKE3 hash of session key, epoch (little-endian)
/// and the priority's label.
pub open spec fn stream_id_spec(session_key: Seq<u8>, epoch: u32, prio: Priority) -> u32 {
    u32_of_le(blake3_digest(session_key + le_bytes_u32(epoch) + stream_label(prio)).subrange(0, 4))
}

fn label_bytes(prio: Priority) -> (r: Vec<u8>)
    ensures
        r@ == stream_label(prio),
{
    let r = match prio {
        Priority::Emergency => vec![101u8, 109, 101, 114, 103, 101, 110, 99, 121],
        Priority::Critical => vec![99u8, 114, 105, 116, 105, 99, 97, 108],
        Priority::High => vec![104u8, 105, 103, 104],
        Priority::Bulk => vec![98u8, 117, 108, 107],
    };
    assert(r@ =~= stream_label(prio));
    r
}

/// Derives the radio stream id of a priority for an epoch (see `stream_id_spec`).
pub fn derive_stream_id(session_key: &[u8; 32], epoch: u32, prio: Priority) -> (r: u32)
    ensures
        r == stream_id_spec(session_key@, epoch, prio),
{
    let mut input = bytes_to_vec(session_key.as_slice());
    let e = u32_to_le(epoch);
    append_bytes(&mut input, e.as_slice());
    let label = label_bytes(prio);
    append_bytes(&mut input, label.as_slice());
    let hash = blake3_hash(input.as_slice());
    let r = u32_from_le(hash.as_slice(), 0);
    assert(hash@.subrange(0, 4) == blake3_digest(session_key@ + le_bytes_u32(epoch) + stream_label(prio)).subrange(0, 4));
    r
}

/// The UDP port of a priority stream.
pub fn stream_port(prio: Priority) -> (r: u16)
    ensures
        r == UDP_BASE_PORT + priority_code(prio),
{
    match prio {
        Priority::Emergency => UDP_BASE_PORT,
        Priority::Critical => UDP_BASE_PORT + 1,
        Priority::High => UDP_BASE_PORT + 2,
        Priority::Bulk => UDP_BASE_PORT + 3,
    }
}

/// Whether the reader passes a received frame on: frames naming this node as
/// sender are dropped (our own broadcasts heard back), and with an allow list
/// set, so are frames from any sender not on it. Frames too short to name a
/// sender pass.
pub open spec fn accepts_frame(data: Seq<u8>, node_id: u8, allow: Option<Seq<u8>>) -> bool {
    data.len() <= SRC_NODE_OFFSET || {
        &&& data[SRC_NODE_OFFSET as int] != node_id
        &&& allow matches Some(list) ==> list.contains(data[SRC_NODE_OFFSET as int])
    }
}

/// The contents of an allow list.
pub open spec fn allow_view(a: Option<Vec<u8>>) -> Option<Seq<u8>> {
    match a {
        Some(l) => Some(l@),
        None => None,
    }
}

/// Decides whether a received frame is passed on (see `accepts_frame`).
pub fn accept_rx_frame(data: &[u8], node_id: u8, allow_list: &Option<Vec<u8>>) -> (r: bool)
    ensures
        r == accepts_frame(data@, node_id, allow_view(*allow_list)),
{
    if data.len() <= SRC_NODE_OFFSET {
        return true;
    }
    let src = data[SRC_NODE_OFFSET];
    if src == node_id {
        return false;
    }
    match allow_list {
        None => true,
        Some(list) => {
            let mut i: usize = 0;
            assert(allow_view(*allow_list) == Some(list@));
            while i < list.len()
                invariant
                    i <= list@.len(),
                    allow_view(*allow_list) == Some(list@),
                    data@.len() > SRC_NODE_OFFSET,
                    src == data@[SRC_NODE_OFFSET as int],
                    src != node_id,
                    forall|j: int| 0 <= j < i ==> list@[j] != src,
                decreases list@.len() - i,
            {
                if list[i] == src {
                    assert(list@[i as int] == src);
                    assert(allow_view(*allow_list) == Some(list@));
                    return true;
                }
                i = i + 1;
            }
            assert(allow_view(*allow_list) == Some(list@));
            false
        },
    }
}

/// A UDP datagram of a stream: stream id and sequence number (little-endian),
/// then the frame.
pub open spec fn udp_datagram(stream_id: u32, seq: u32, frame: Seq<u8>) -> Seq<u8> {
    le_bytes_u32(stream_id) + le_bytes_u32(seq) + frame
}

/// Frames a datagram for the UDP radio backend (see `udp_datagram`).
pub fn encode_udp_datagram(stream_id: u32, seq: u32, frame: &[u8]) -> (r: Vec<u8>)
    ensures
        r@ == udp_datagram(stream_id, seq, frame@),
{
    let mut pkt: Vec<u8> = Vec::new();
    let sid = u32_to_le(stream_id);
    append_bytes(&mut pkt, sid.as_slice());
    let sq = u32_to_le(seq);
    append_bytes(&mut pkt, sq.as_slice());
    append_bytes(&mut pkt, frame);
    pkt
}

/// What the UDP receiver of stream `stream_id` makes of a datagram: the
/// sequence number and frame when it is at least 8 bytes long and carries
/// that stream id; `None` otherwise.
pub open spec fn udp_receive(pkt: Seq<u8>, stream_id: u32) -> Option<(u32, Seq<u8>)> {
    if pkt.len() >= UDP_HEADER_LEN && u32_of_le(pkt.subrange(0, 4)) == stream_id {
        Some((u32_of_le(pkt.subrange(4, 8)), pkt.subrange(8, pkt.len() as int)))
    } else {
        None
    }
}

/// Reads a datagram for stream `stream_id` (see `udp_receive`).
pub fn decode_udp_datagram(pkt: &[u8], stream_id: u32) -> (r: Option<(u32, Vec<u8>)>)
    ensures
        match udp_receive(pkt@, stream_id) {
            Some((seq, frame)) => r matches Some((s, f)) && s == seq && f@ == frame,
            None => r is None,
        },
{
    if pkt.len() < UDP_HEADER_LEN {
        return None;
    }
    let sid = u32_from_le(pkt, 0);
    if sid != stream_id {
        return None;
    }
    let seq = u32_from_le(pkt, 4);
    let frame = bytes_to_vec(&pkt[UDP_HEADER_LEN..pkt.len()]);
    Some((seq, frame))
}

/// What the UDP backend sends, its receiver on the same stream reads back:
/// the sequence number and the frame.
pub proof fn lemma_udp_round_trip(stream_id: u32, seq: u32, frame: Seq<u8>)
    ensures
        udp_receive(udp_datagram(stream_id, seq, frame), stream_id) == Some((seq, frame)),
{
    let pkt = udp_datagram(stream_id, seq, frame);
    lemma_le_u32_round_trip(stream_id, seq![]);
    lemma_le_u32_round_trip(seq, seq![]);
    assert(pkt.subrange(0, 4) =~= le_bytes_u32(stream_id));
    assert(pkt.subrange(4, 8) =~= le_bytes_u32(seq));
    assert(pkt.subrange(8, pkt.len() as int) =~= frame);
}

} // verus!
