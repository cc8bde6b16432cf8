use vstd::prelude::*;

verus! {

/// Little-endian bytes of a `u16`.
pub open spec fn le_bytes_u16(v: u16) -> Seq<u8> {
    seq![v as u8, (v >> 8u16) as u8]
}

/// The `u16` whose little-endian bytes are the first 2 of `s`.
pub open spec fn u16_of_le(s: Seq<u8>) -> u16 {
    (s[0] as u16) | ((s[1] as u16) << 8u16)
}

/// Little-endian encoding of a `u16`.
pub fn u16_to_le(v: u16) -> (r: [u8; 2])
    ensures
        r@ == le_bytes_u16(v),
{
    let r = [v as u8, (v >> 8u16) as u8];
    assert(r@ =~= le_bytes_u16(v));
    r
}

/// Reads a little-endian `u16` at `off`.
pub fn u16_from_le(buf: &[u8], off: usize) -> (r: u16)
    requires
        off + 2 <= buf@.len(),
    ensures
        r == u16_of_le(buf@.subrange(off as int, off + 2)),
{
    let ghost s = buf@.subrange(off as int, off + 2);
    assert(s[0] == buf@[off + 0]);
    assert(s[1] == buf@[off + 1]);
    (buf[off] as u16) | ((buf[off + 1] as u16) << 8u16)
}

proof fn lemma_u16_bytes_bv(b0: u8, b1: u8)
    ensures
        (((b0 as u16) | ((b1 as u16) << 8u16)) as u8) == b0,
        ((((b0 as u16) | ((b1 as u16) << 8u16)) >> 8u16) as u8) == b1,
{
    assert(((((b0 as u16) | ((b1 as u16) << 8u16)) as u8) == b0) && (((((b0 as u16) | ((b1 as u16) << 8u16)) >> 8u16) as u8) == b1)) by (bit_vector);
}

proof fn lemma_u16_value_bv(v: u16)
    ensures
        ((v as u8) as u16) | (((v >> 8u16) as u8) as u16) << 8u16 == v,
{
    assert(((v as u8) as u16) | (((v >> 8u16) as u8) as u16) << 8u16 == v) by (bit_vector);
}

/// Decoding the little-endian bytes of `v` gives `v` back, and encoding a decoded
/// 2-byte sequence gives the sequence back.
pub proof fn lemma_le_u16_round_trip(v: u16, s: Seq<u8>)
    ensures
        le_bytes_u16(v).len() == 2,
        u16_of_le(le_bytes_u16(v)) == v,
        s.len() == 2 ==> le_bytes_u16(u16_of_le(s)) == s,
{
    lemma_u16_value_bv(v);
    if s.len() == 2 {
        lemma_u16_bytes_bv(s[0], s[1]);
        assert(le_bytes_u16(u16_of_le(s)) =~= s);
    }
}

/// Little-endian bytes of a `u32`.
pub open spec fn le_bytes_u32(v: u32) -> Seq<u8> {
    seq![v as u8, (v >> 8u32) as u8, (v >> 16u32) as u8, (v >> 24u32) as u8]
}

/// The `u32` whose little-endian bytes are the first 4 of `s`.
pub open spec fn u32_of_le(s: Seq<u8>) -> u32 {
    (s[0] as u32) | ((s[1] as u32) << 8u32) | ((s[2] as u32) << 16u32) | ((s[3] as u32) << 24u32)
}

/// Little-endian encoding of a `u32`.
pub fn u32_to_le(v: u32) -> (r: [u8; 4])
    ensures
        r@ == le_bytes_u32(v),
{
    let r = [v as u8, (v >> 8u32) as u8, (v >> 16u32) as u8, (v >> 24u32) as u8];
    assert(r@ =~= le_bytes_u32(v));
    r
}

/// Reads a little-endian `u32` at `off`.
pub fn u32_from_le(buf: &[u8], off: usize) -> (r: u32)
    requires
        off + 4 <= buf@.len(),
    ensures
        r == u32_of_le(buf@.subrange(off as int, off + 4)),
{
    let ghost s = buf@.subrange(off as int, off + 4);
    assert(s[0] == buf@[off + 0]);
    assert(s[1] == buf@[off + 1]);
    assert(s[2] == buf@[off + 2]);
    assert(s[3] == buf@[off + 3]);
    (buf[off] as u32) | ((buf[off + 1] as u32) << 8u32) | ((buf[off + 2] as u32) << 16u32) | ((buf[off + 3] as u32) << 24u32)
}

proof fn lemma_u32_bytes_bv(b0: u8, b1: u8, b2: u8, b3: u8)
    ensures
        (((b0 as u32) | ((b1 as u32) << 8u32) | ((b2 as u32) << 16u32) | ((b3 as u32) << 24u32)) as u8) == b0,
        ((((b0 as u32) | ((b1 as u32) << 8u32) | ((b2 as u32) << 16u32) | ((b3 as u32) << 24u32)) >> 8u32) as u8) == b1,
        ((((b0 as u32) | ((b1 as u32) << 8u32) | ((b2 as u32) << 16u32) | ((b3 as u32) << 24u32)) >> 16u32) as u8) == b2,
        ((((b0 as u32) | ((b1 as u32) << 8u32) | ((b2 as u32) << 16u32) | ((b3 as u32) << 24u32)) >> 24u32) as u8) == b3,
{
    assert(((((b0 as u32) | ((b1 as u32) << 8u32) | ((b2 as u32) << 16u32) | ((b3 as u32) << 24u32)) as u8) == b0) && (((((b0 as u32) | ((b1 as u32) << 8u32) | ((b2 as u32) << 16u32) | ((b3 as u32) << 24u32)) >> 8u32) as u8) == b1) && (((((b0 as u32) | ((b1 as u32) << 8u32) | ((b2 as u32) << 16u32) | ((b3 as u32) << 24u32)) >> 16u32) as u8) == b2) && (((((b0 as u32) | ((b1 as u32) << 8u32) | ((b2 as u32) << 16u32) | ((b3 as u32) << 24u32)) >> 24u32) as u8) == b3)) by (bit_vector);
}

proof fn lemma_u32_value_bv(v: u32)
    ensures
        ((v as u8) as u32) | (((v >> 8u32) as u8) as u32) << 8u32 | (((v >> 16u32) as u8) as u32) << 16u32 | (((v >> 24u32) as u8) as u32) << 24u32 == v,
{
    assert(((v as u8) as u32) | (((v >> 8u32) as u8) as u32) << 8u32 | (((v >> 16u32) as u8) as u32) << 16u32 | (((v >> 24u32) as u8) as u32) << 24u32 == v) by (bit_vector);
}

/// Decoding the little-endian bytes of `v` gives `v` back, and encoding a decoded
/// 4-byte sequence gives the sequence back.
pub proof fn lemma_le_u32_round_trip(v: u32, s: Seq<u8>)
    ensures
        le_bytes_u32(v).len() == 4,
        u32_of_le(le_bytes_u32(v)) == v,
        s.len() == 4 ==> le_bytes_u32(u32_of_le(s)) == s,
{
    lemma_u32_value_bv(v);
    if s.len() == 4 {
        lemma_u32_bytes_bv(s[0], s[1], s[2], s[3]);
        assert(le_bytes_u32(u32_of_le(s)) =~= s);
    }
}

/// Little-endian bytes of a `u64`.
pub open spec fn le_bytes_u64(v: u64) -> Seq<u8> {
    seq![v as u8, (v >> 8u64) as u8, (v >> 16u64) as u8, (v >> 24u64) as u8, (v >> 32u64) as u8, (v >> 40u64) as u8, (v >> 48u64) as u8, (v >> 56u64) as u8]
}

/// The `u64` whose little-endian bytes are the first 8 of `s`.
pub open spec fn u64_of_le(s: Seq<u8>) -> u64 {
    (s[0] as u64) | ((s[1] as u64) << 8u64) | ((s[2] as u64) << 16u64) | ((s[3] as u64) << 24u64) | ((s[4] as u64) << 32u64) | ((s[5] as u64) << 40u64) | ((s[6] as u64) << 48u64) | ((s[7] as u64) << 56u64)
}

/// Little-endian encoding of a `u64`.
pub fn u64_to_le(v: u64) -> (r: [u8; 8])
    ensures
        r@ == le_bytes_u64(v),
{
    let r = [v as u8, (v >> 8u64) as u8, (v >> 16u64) as u8, (v >> 24u64) as u8, (v >> 32u64) as u8, (v >> 40u64) as u8, (v >> 48u64) as u8, (v >> 56u64) as u8];
    assert(r@ =~= le_bytes_u64(v));
    r
}

/// Reads a little-endian `u64` at `off`.
pub fn u64_from_le(buf: &[u8], off: usize) -> (r: u64)
    requires
        off + 8 <= buf@.len(),
    ensures
        r == u64_of_le(buf@.subrange(off as int, off + 8)),
{
    let ghost s = buf@.subrange(off as int, off + 8);
    assert(s[0] == buf@[off + 0]);
    assert(s[1] == buf@[off + 1]);
    assert(s[2] == buf@[off + 2]);
    assert(s[3] == buf@[off + 3]);
    assert(s[4] == buf@[off + 4]);
    assert(s[5] == buf@[off + 5]);
    assert(s[6] == buf@[off + 6]);
    assert(s[7] == buf@[off + 7]);
    (buf[off] as u64) | ((buf[off + 1] as u64) << 8u64) | ((buf[off + 2] as u64) << 16u64) | ((buf[off + 3] as u64) << 24u64) | ((buf[off + 4] as u64) << 32u64) | ((buf[off + 5] as u64) << 40u64) | ((buf[off + 6] as u64) << 48u64) | ((buf[off + 7] as u64) << 56u64)
}

proof fn lemma_u64_bytes_bv(b0: u8, b1: u8, b2: u8, b3: u8, b4: u8, b5: u8, b6: u8, b7: u8)
    ensures
        (((b0 as u64) | ((b1 as u64) << 8u64) | ((b2 as u64) << 16u64) | ((b3 as u64) << 24u64) | ((b4 as u64) << 32u64) | ((b5 as u64) << 40u64) | ((b6 as u64) << 48u64) | ((b7 as u64) << 56u64)) as u8) == b0,
        ((((b0 as u64) | ((b1 as u64) << 8u64) | ((b2 as u64) << 16u64) | ((b3 as u64) << 24u64) | ((b4 as u64) << 32u64) | ((b5 as u64) << 40u64) | ((b6 as u64) << 48u64) | ((b7 as u64) << 56u64)) >> 8u64) as u8) == b1,
        ((((b0 as u64) | ((b1 as u64) << 8u64) | ((b2 as u64) << 16u64) | ((b3 as u64) << 24u64) | ((b4 as u64) << 32u64) | ((b5 as u64) << 40u64) | ((b6 as u64) << 48u64) | ((b7 as u64) << 56u64)) >> 16u64) as u8) == b2,
        ((((b0 as u64) | ((b1 as u64) << 8u64) | ((b2 as u64) << 16u64) | ((b3 as u64) << 24u64) | ((b4 as u64) << 32u64) | ((b5 as u64) << 40u64) | ((b6 as u64) << 48u64) | ((b7 as u64) << 56u64)) >> 24u64) as u8) == b3,
        ((((b0 as u64) | ((b1 as u64) << 8u64) | ((b2 as u64) << 16u64) | ((b3 as u64) << 24u64) | ((b4 as u64) << 32u64) | ((b5 as u64) << 40u64) | ((b6 as u64) << 48u64) | ((b7 as u64) << 56u64)) >> 32u64) as u8) == b4,
        ((((b0 as u64) | ((b1 as u64) << 8u64) | ((b2 as u64) << 16u64) | ((b3 as u64) << 24u64) | ((b4 as u64) << 32u64) | ((b5 as u64) << 40u64) | ((b6 as u64) << 48u64) | ((b7 as u64) << 56u64)) >> 40u64) as u8) == b5,
        ((((b0 as u64) | ((b1 as u64) << 8u64) | ((b2 as u64) << 16u64) | ((b3 as u64) << 24u64) | ((b4 as u64) << 32u64) | ((b5 as u64) << 40u64) | ((b6 as u64) << 48u64) | ((b7 as u64) << 56u64)) >> 48u64) as u8) == b6,
        ((((b0 as u64) | ((b1 as u64) << 8u64) | ((b2 as u64) << 16u64) | ((b3 as u64) << 24u64) | ((b4 as u64) << 32u64) | ((b5 as u64) << 40u64) | ((b6 as u64) << 48u64) | ((b7 as u64) << 56u64)) >> 56u64) as u8) == b7,
{
    assert(((((b0 as u64) | ((b1 as u64) << 8u64) | ((b2 as u64) << 16u64) | ((b3 as u64) << 24u64) | ((b4 as u64) << 32u64) | ((b5 as u64) << 40u64) | ((b6 as u64) << 48u64) | ((b7 as u64) << 56u64)) as u8) == b0) && (((((b0 as u64) | ((b1 as u64) << 8u64) | ((b2 as u64) << 16u64) | ((b3 as u64) << 24u64) | ((b4 as u64) << 32u64) | ((b5 as u64) << 40u64) | ((b6 as u64) << 48u64) | ((b7 as u64) << 56u64)) >> 8u64) as u8) == b1) && (((((b0 as u64) | ((b1 as u64) << 8u64) | ((b2 as u64) << 16u64) | ((b3 as u64) << 24u64) | ((b4 as u64) << 32u64) | ((b5 as u64) << 40u64) | ((b6 as u64) << 48u64) | ((b7 as u64) << 56u64)) >> 16u64) as u8) == b2) && (((((b0 as u64) | ((b1 as u64) << 8u64) | ((b2 as u64) << 16u64) | ((b3 as u64) << 24u64) | ((b4 as u64) << 32u64) | ((b5 as u64) << 40u64) | ((b6 as u64) << 48u64) | ((b7 as u64) << 56u64)) >> 24u64) as u8) == b3) && (((((b0 as u64) | ((b1 as u64) << 8u64) | ((b2 as u64) << 16u64) | ((b3 as u64) << 24u64) | ((b4 as u64) << 32u64) | ((b5 as u64) << 40u64) | ((b6 as u64) << 48u64) | ((b7 as u64) << 56u64)) >> 32u64) as u8) == b4) && (((((b0 as u64) | ((b1 as u64) << 8u64) | ((b2 as u64) << 16u64) | ((b3 as u64) << 24u64) | ((b4 as u64) << 32u64) | ((b5 as u64) << 40u64) | ((b6 as u64) << 48u64) | ((b7 as u64) << 56u64)) >> 40u64) as u8) == b5) && (((((b0 as u64) | ((b1 as u64) << 8u64) | ((b2 as u64) << 16u64) | ((b3 as u64) << 24u64) | ((b4 as u64) << 32u64) | ((b5 as u64) << 40u64) | ((b6 as u64) << 48u64) | ((b7 as u64) << 56u64)) >> 48u64) as u8) == b6) && (((((b0 as u64) | ((b1 as u64) << 8u64) | ((b2 as u64) << 16u64) | ((b3 as u64) << 24u64) | ((b4 as u64) << 32u64) | ((b5 as u64) << 40u64) | ((b6 as u64) << 48u64) | ((b7 as u64) << 56u64)) >> 56u64) as u8) == b7)) by (bit_vector);
}

proof fn lemma_u64_value_bv(v: u64)
    ensures
        ((v as u8) as u64) | (((v >> 8u64) as u8) as u64) << 8u64 | (((v >> 16u64) as u8) as u64) << 16u64 | (((v >> 24u64) as u8) as u64) << 24u64 | (((v >> 32u64) as u8) as u64) << 32u64 | (((v >> 40u64) as u8) as u64) << 40u64 | (((v >> 48u64) as u8) as u64) << 48u64 | (((v >> 56u64) as u8) as u64) << 56u64 == v,
{
    assert(((v as u8) as u64) | (((v >> 8u64) as u8) as u64) << 8u64 | (((v >> 16u64) as u8) as u64) << 16u64 | (((v >> 24u64) as u8) as u64) << 24u64 | (((v >> 32u64) as u8) as u64) << 32u64 | (((v >> 40u64) as u8) as u64) << 40u64 | (((v >> 48u64) as u8) as u64) << 48u64 | (((v >> 56u64) as u8) as u64) << 56u64 == v) by (bit_vector);
}

/// Decoding the little-endian bytes of `v` gives `v` back, and encoding a decoded
/// 8-byte sequence gives the sequence back.
pub proof fn lemma_le_u64_round_trip(v: u64, s: Seq<u8>)
    ensures
        le_bytes_u64(v).len() == 8,
        u64_of_le(le_bytes_u64(v)) == v,
        s.len() == 8 ==> le_bytes_u64(u64_of_le(s)) == s,
{
    lemma_u64_value_bv(v);
    if s.len() == 8 {
        lemma_u64_bytes_bv(s[0], s[1], s[2], s[3], s[4], s[5], s[6], s[7]);
        assert(le_bytes_u64(u64_of_le(s)) =~= s);
    }
}

} // verus!
