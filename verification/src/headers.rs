use vstd::prelude::*;

use crate::bytes::{u16_of_le, u64_of_le, le_bytes_u16, le_bytes_u64, u16_from_le, u16_to_le, u64_from_le, u64_to_le, lemma_le_u16_round_trip, lemma_le_u64_round_trip};
use crate::errors::FrameError;
use crate::priority::{msg_kind_code, priority_code, MsgKind, Priority};

verus! {

/// Length of the signed authentication header on the wire.
pub const AUTH_HEADER_LEN: usize = 44;
/// Length of the hop-routing header on the wire.
pub const ROUTED_HEADER_LEN: usize = 4;

/// The 44-byte authentication header, covered by the frame signature.
#[derive(Debug, Clone, Copy, PartialEq, Eq)]
pub struct AuthHeader {
    pub src_node: u8,
    pub dst_node: u8,
    pub msg_kind: MsgKind,
    pub priority: Priority,
    pub timestamp_ms: u64,
    pub nonce: [u8; 12],
    pub payload_hash: [u8; 12],
    pub epoch: u16,
    pub payload_len: u16,
    pub fec_index: u8,
    pub fec_k: u8,
    pub fec_n: u8,
    pub fec_block_id: u8,
}

/// The wire image of an authentication header: fields in declaration order,
/// integers little-endian.
pub open spec fn auth_header_bytes(h: AuthHeader) -> Seq<u8> {
    seq![h.src_node, h.dst_node, msg_kind_code(h.msg_kind), priority_code(h.priority)]
        + le_bytes_u64(h.timestamp_ms) + h.nonce@ + h.payload_hash@
        + le_bytes_u16(h.epoch) + le_bytes_u16(h.payload_len)
        + seq![h.fec_index, h.fec_k, h.fec_n, h.fec_block_id]
}

/// Whether the first 44 bytes of `s` can be read as an authentication header:
/// long enough, with valid kind and priority codes.
pub open spec fn auth_header_parses(s: Seq<u8>) -> bool {
    s.len() >= AUTH_HEADER_LEN && s[2] < 5 && s[3] < 4
}

impl AuthHeader {
    /// Serialises the header to its fixed 44-byte layout.
    pub fn to_bytes(&self) -> (r: [u8; AUTH_HEADER_LEN])
        ensures
            r@ == auth_header_bytes(*self),
    {
        let kind = self.msg_kind.to_u8();
        let prio = self.priority.to_u8();
        let ts = u64_to_le(self.timestamp_ms);
        let ep = u16_to_le(self.epoch);
        let pl = u16_to_le(self.payload_len);
        let r = [
            self.src_node,
            self.dst_node,
            kind,
            prio,
            ts[0],
            ts[1],
            ts[2],
            ts[3],
            ts[4],
            ts[5],
            ts[6],
            ts[7],
            self.nonce[0],
            self.nonce[1],
            self.nonce[2],
            self.nonce[3],
            self.nonce[4],
            self.nonce[5],
            self.nonce[6],
            self.nonce[7],
            self.nonce[8],
            self.nonce[9],
            self.nonce[10],
            self.nonce[11],
            self.payload_hash[0],
            self.payload_hash[1],
            self.payload_hash[2],
            self.payload_hash[3],
            self.payload_hash[4],
            self.payload_hash[5],
            self.payload_hash[6],
            self.payload_hash[7],
            self.payload_hash[8],
            self.payload_hash[9],
            self.payload_hash[10],
            self.payload_hash[11],
            ep[0],
            ep[1],
            pl[0],
            pl[1],
            self.fec_index,
            self.fec_k,
            self.fec_n,
            self.fec_block_id,
        ];
        assert(r@ =~= auth_header_bytes(*self));
        r
    }

    /// Parses the first 44 bytes of `buf`. Fails with `TruncatedFrame` when the
    /// buffer is short or the kind or priority code is out of range.
    pub fn from_bytes(buf: &[u8]) -> (r: Result<AuthHeader, FrameError>)
        ensures
            r is Ok <==> auth_header_parses(buf@),
            r matches Err(e) ==> e == FrameError::TruncatedFrame,
            r matches Ok(h) ==> auth_header_bytes(h) == buf@.subrange(0, AUTH_HEADER_LEN as int),
    {
        if buf.len() < AUTH_HEADER_LEN {
            return Err(FrameError::TruncatedFrame);
        }
        let msg_kind = match MsgKind::from_u8(buf[2]) {
            Some(k) => k,
            None => return Err(FrameError::TruncatedFrame),
        };
        let priority = match Priority::from_u8(buf[3]) {
            Some(p) => p,
            None => return Err(FrameError::TruncatedFrame),
        };
        let timestamp_ms = u64_from_le(buf, 4);
        let nonce: [u8; 12] = [buf[12], buf[13], buf[14], buf[15], buf[16], buf[17], buf[18], buf[19], buf[20], buf[21], buf[22], buf[23]];
        let payload_hash: [u8; 12] = [buf[24], buf[25], buf[26], buf[27], buf[28], buf[29], buf[30], buf[31], buf[32], buf[33], buf[34], buf[35]];
        let epoch = u16_from_le(buf, 36);
        let payload_len = u16_from_le(buf, 38);
        let h = AuthHeader {
            src_node: buf[0],
            dst_node: buf[1],
            msg_kind,
            priority,
            timestamp_ms,
            nonce,
            payload_hash,
            epoch,
            payload_len,
            fec_index: buf[40],
            fec_k: buf[41],
            fec_n: buf[42],
            fec_block_id: buf[43],
        };
        proof {
            let s = buf@.subrange(0, AUTH_HEADER_LEN as int);
            lemma_le_u64_round_trip(timestamp_ms, s.subrange(4, 12));
            lemma_le_u16_round_trip(epoch, s.subrange(36, 38));
            lemma_le_u16_round_trip(payload_len, s.subrange(38, 40));
            assert(buf@.subrange(4, 12) =~= s.subrange(4, 12));
            assert(buf@.subrange(36, 38) =~= s.subrange(36, 38));
            assert(buf@.subrange(38, 40) =~= s.subrange(38, 40));
            assert(auth_header_bytes(h) =~= s);
        }
        Ok(h)
    }
}

/// What each field of a header is in terms of its wire image.
pub proof fn lemma_auth_header_fields(h: AuthHeader, s: Seq<u8>)
    requires
        auth_header_bytes(h) == s,
    ensures
        s.len() == AUTH_HEADER_LEN,
        h.src_node == s[0],
        h.dst_node == s[1],
        msg_kind_code(h.msg_kind) == s[2],
        priority_code(h.priority) == s[3],
        h.timestamp_ms == u64_of_le(s.subrange(4, 12)),
        h.nonce@ == s.subrange(12, 24),
        h.payload_hash@ == s.subrange(24, 36),
        h.epoch == u16_of_le(s.subrange(36, 38)),
        h.payload_len == u16_of_le(s.subrange(38, 40)),
        h.fec_index == s[40],
        h.fec_k == s[41],
        h.fec_n == s[42],
        h.fec_block_id == s[43],
{
    lemma_le_u64_round_trip(h.timestamp_ms, seq![]);
    lemma_le_u16_round_trip(h.epoch, seq![]);
    lemma_le_u16_round_trip(h.payload_len, seq![]);
    assert(s.subrange(4, 12) =~= le_bytes_u64(h.timestamp_ms));
    assert(s.subrange(12, 24) =~= h.nonce@);
    assert(s.subrange(24, 36) =~= h.payload_hash@);
    assert(s.subrange(36, 38) =~= le_bytes_u16(h.epoch));
    assert(s.subrange(38, 40) =~= le_bytes_u16(h.payload_len));
}

/// Two headers with the same wire image are equal: the layout loses nothing.
pub proof fn lemma_auth_header_bytes_injective(a: AuthHeader, b: AuthHeader)
    requires
        auth_header_bytes(a) == auth_header_bytes(b),
    ensures
        a == b,
{
    let sa = auth_header_bytes(a);
    let sb = auth_header_bytes(b);
    lemma_le_u64_round_trip(a.timestamp_ms, seq![]);
    lemma_le_u64_round_trip(b.timestamp_ms, seq![]);
    lemma_le_u16_round_trip(a.epoch, seq![]);
    lemma_le_u16_round_trip(b.epoch, seq![]);
    lemma_le_u16_round_trip(a.payload_len, seq![]);
    lemma_le_u16_round_trip(b.payload_len, seq![]);
    assert(sa.subrange(4, 12) =~= le_bytes_u64(a.timestamp_ms));
    assert(sb.subrange(4, 12) =~= le_bytes_u64(b.timestamp_ms));
    assert(sa.subrange(12, 24) =~= a.nonce@);
    assert(sb.subrange(12, 24) =~= b.nonce@);
    assert(sa.subrange(24, 36) =~= a.payload_hash@);
    assert(sb.subrange(24, 36) =~= b.payload_hash@);
    assert(sa.subrange(36, 38) =~= le_bytes_u16(a.epoch));
    assert(sb.subrange(36, 38) =~= le_bytes_u16(b.epoch));
    assert(sa.subrange(38, 40) =~= le_bytes_u16(a.payload_len));
    assert(sb.subrange(38, 40) =~= le_bytes_u16(b.payload_len));
    assert(u64_of_le(le_bytes_u64(a.timestamp_ms)) == u64_of_le(le_bytes_u64(b.timestamp_ms)));
    assert(a.timestamp_ms == b.timestamp_ms);
    assert(u16_of_le(le_bytes_u16(a.epoch)) == u16_of_le(le_bytes_u16(b.epoch)));
    assert(a.epoch == b.epoch);
    assert(u16_of_le(le_bytes_u16(a.payload_len)) == u16_of_le(le_bytes_u16(b.payload_len)));
    assert(a.payload_len == b.payload_len);
    assert(a.nonce =~= b.nonce);
    assert(a.payload_hash =~= b.payload_hash);
    assert(sa[0] == sb[0] && sa[1] == sb[1]);
    assert(sa[2] == sb[2] && sa[3] == sb[3]);
    assert(sa[40] == sb[40] && sa[41] == sb[41] && sa[42] == sb[42] && sa[43] == sb[43]);
    assert(a.msg_kind == b.msg_kind);
    assert(a.priority == b.priority);
}

/// Reading back a serialised header gives the same header.
pub proof fn lemma_auth_header_round_trip(h: AuthHeader, parsed: AuthHeader)
    requires
        auth_header_bytes(parsed) == auth_header_bytes(h).subrange(0, AUTH_HEADER_LEN as int),
    ensures
        parsed == h,
        auth_header_parses(auth_header_bytes(h)),
{
    lemma_le_u64_round_trip(h.timestamp_ms, seq![]);
    assert(auth_header_bytes(h).subrange(0, AUTH_HEADER_LEN as int) =~= auth_header_bytes(h));
    lemma_auth_header_bytes_injective(h, parsed);
}

/// The 4-byte hop-routing header, rewritten by each forwarder.
#[derive(Debug, Clone, Copy, PartialEq, Eq)]
pub struct RoutedHeader {
    pub last_hop_id: u8,
    pub hops_taken: u8,
    pub flags: u8,
    pub reserved: u8,
}

/// The wire image of a routing header.
pub open spec fn routed_header_bytes(r: RoutedHeader) -> Seq<u8> {
    seq![r.last_hop_id, r.hops_taken, r.flags, r.reserved]
}

impl RoutedHeader {
    /// Serialises the header to its 4-byte layout.
    pub fn to_bytes(&self) -> (r: [u8; ROUTED_HEADER_LEN])
        ensures
            r@ == routed_header_bytes(*self),
    {
        let r = [self.last_hop_id, self.hops_taken, self.flags, self.reserved];
        assert(r@ =~= routed_header_bytes(*self));
        r
    }

    /// Parses the first 4 bytes of `buf`; fails with `TruncatedFrame` when shorter.
    pub fn from_bytes(buf: &[u8]) -> (r: Result<RoutedHeader, FrameError>)
        ensures
            r is Ok <==> buf@.len() >= ROUTED_HEADER_LEN,
            r matches Err(e) ==> e == FrameError::TruncatedFrame,
            r matches Ok(h) ==> routed_header_bytes(h) == buf@.subrange(0, ROUTED_HEADER_LEN as int),
    {
        if buf.len() < ROUTED_HEADER_LEN {
            return Err(FrameError::TruncatedFrame);
        }
        let h = RoutedHeader {
            last_hop_id: buf[0],
            hops_taken: buf[1],
            flags: buf[2],
            reserved: buf[3],
        };
        assert(routed_header_bytes(h) =~= buf@.subrange(0, ROUTED_HEADER_LEN as int));
        Ok(h)
    }
}

/// Reading back a serialised routing header gives the same header.
pub proof fn lemma_routed_header_round_trip(h: RoutedHeader, parsed: RoutedHeader)
    requires
        routed_header_bytes(parsed) == routed_header_bytes(h).subrange(0, ROUTED_HEADER_LEN as int),
    ensures
        parsed == h,
{
    assert(routed_header_bytes(h).subrange(0, 4) =~= routed_header_bytes(h));
    assert(routed_header_bytes(parsed)[0] == routed_header_bytes(h)[0]);
    assert(routed_header_bytes(parsed)[1] == routed_header_bytes(h)[1]);
    assert(routed_header_bytes(parsed)[2] == routed_header_bytes(h)[2]);
    assert(routed_header_bytes(parsed)[3] == routed_header_bytes(h)[3]);
}

} // verus!
