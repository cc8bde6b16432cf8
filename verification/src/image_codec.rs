use vstd::prelude::*;

use crate::frame::bytes_to_vec;
use crate::image_cache::{
    block_key, data_at, has_index, insert_spec, join_blocks, join_by_index, store_shard, all_assembled,
    bucket_of, CacheModel, ShardView,
};
use crate::messages::ImageShard;

verus! {

/// Bytes of image data carried per shard.
pub const SHARD_SIZE: usize = 1207;

/// What `image`'s JPEG encoder makes of an 8-bit greyscale image of
/// `width` x `height` pixels taken from `raw` at `quality`, or `None` on failure.
pub uninterp spec fn jpeg_encoding(raw: Seq<u8>, width: u32, height: u32, quality: u8) -> Option<Seq<u8>>;

/// What `image` decodes `bytes` to, as 8-bit greyscale pixels with width and
/// height, or `None` when it cannot decode them.
pub uninterp spec fn jpeg_decoding(bytes: Seq<u8>) -> Option<(Seq<u8>, u32, u32)>;

/// Encodes raw greyscale bytes as JPEG: `image::GrayImage::from_raw`, then
/// `write_to` with `ImageOutputFormat::Jpeg(quality)` into memory. The
/// contract names the result `jpeg_encoding(raw, width, height, quality)` and
/// states what `from_raw`'s source shows: a buffer shorter than
/// `width * height` is refused, giving `None`.
#[verifier::external_body]
pub fn encode_jpeg(raw: &[u8], width: u32, height: u32, quality: u8) -> (r: Option<Vec<u8>>)
    ensures
        r matches Some(v) ==> jpeg_encoding(raw@, width, height, quality) == Some(v@),
        r is None ==> jpeg_encoding(raw@, width, height, quality) is None,
        raw@.len() < width as nat * height as nat ==> r is None,
{
    let img = image::GrayImage::from_raw(width, height, raw.to_vec())?;
    let mut buf = Vec::new();
    img.write_to(&mut std::io::Cursor::new(&mut buf), image::ImageOutputFormat::Jpeg(quality)).ok()?;
    Some(buf)
}

/// Decodes an image (`image::load_from_memory`, then `into_luma8`) into
/// greyscale pixels with width and height. The contract names the result
/// `jpeg_decoding(bytes)`. The decoder reports malformed input as an error,
/// which gives `None`; that it returns (does not panic) on every byte string
/// is not shown by the source at hand and is not claimed beyond the call
/// returning.
#[verifier::external_body]
pub fn decode_jpeg(bytes: &[u8]) -> (r: Option<(Vec<u8>, u32, u32)>)
    ensures
        r matches Some(v) ==> jpeg_decoding(bytes@) == Some((v.0@, v.1, v.2)),
        r is None ==> jpeg_decoding(bytes@) is None,
{
    let img = image::load_from_memory(bytes).ok()?;
    let gray = img.into_luma8();
    let (w, h) = (gray.width(), gray.height());
    Some((gray.into_raw(), w, h))
}

/// Number of shards `len` bytes take.
pub open spec fn chunk_count(len: nat) -> nat {
    ((len + SHARD_SIZE - 1) / (SHARD_SIZE as int)) as nat
}

/// Shard `i` of `bytes`: the `i`-th run of `SHARD_SIZE` bytes (the last one shorter).
pub open spec fn chunk(bytes: Seq<u8>, i: int) -> Seq<u8> {
    let start = i * SHARD_SIZE;
    let end = if (i + 1) * SHARD_SIZE < bytes.len() { (i + 1) * SHARD_SIZE } else { bytes.len() as int };
    bytes.subrange(start, end)
}

/// The shards that carry `bytes` as the image of `target_id`: one block per
/// `SHARD_SIZE` bytes, each a single shard (`k = n = 1`, index 0), with the
/// block count truncated to a byte.
pub open spec fn image_shard_views(target_id: u16, bytes: Seq<u8>) -> Seq<ShardView> {
    let n = chunk_count(bytes.len());
    Seq::new(n, |i: int| ShardView {
        target_id,
        total_blocks: n as u8,
        block_id: i as u8,
        index: 0,
        k: 1,
        data: chunk(bytes, i),
    })
}

/// Cuts `bytes` into the shards that carry them as the image of `target_id`
/// (see `image_shard_views`).
pub fn image_shards(target_id: u16, bytes: &[u8]) -> (r: Vec<ImageShard>)
    ensures
        r@.len() == chunk_count(bytes@.len()),
        forall|i: int| 0 <= i < r@.len() ==> crate::image_cache::shard_view(#[trigger] r@[i]) == image_shard_views(target_id, bytes@)[i],
        forall|i: int| 0 <= i < r@.len() ==> (#[trigger] r@[i]).n == 1,
{
    let len = bytes.len();
    let n: usize = len / SHARD_SIZE + if len % SHARD_SIZE != 0 { 1 } else { 0 };
    assert(n == chunk_count(len as nat)) by (nonlinear_arith)
        requires n == len / 1207 + if len % 1207 != 0 { 1int } else { 0int };
    let total = n as u8;
    let mut out: Vec<ImageShard> = Vec::new();
    let mut i: usize = 0;
    while i < n
        invariant
            i <= n,
            n == chunk_count(len as nat),
            len == bytes@.len(),
            total == n as u8,
            out@.len() == i,
            forall|j: int| 0 <= j < i ==> crate::image_cache::shard_view(#[trigger] out@[j]) == image_shard_views(target_id, bytes@)[j],
            forall|j: int| 0 <= j < i ==> (#[trigger] out@[j]).n == 1,
        decreases n - i,
    {
        assert(i * 1207 < len) by (nonlinear_arith)
            requires i < n, n == (len + 1206) / 1207;
        let start = i * SHARD_SIZE;
        let end = if len - start > SHARD_SIZE { start + SHARD_SIZE } else { len };
        let data = bytes_to_vec(&bytes[start..end]);
        let shard = ImageShard { target_id, total_blocks: total, block_id: i as u8, index: 0, k: 1, n: 1, data };
        proof {
            assert(data@ == chunk(bytes@, i as int));
        }
        out.push(shard);
        i = i + 1;
    }
    out
}

/// Inserts `shards` in order: the final cache and the result of the last
/// insertion (`false` when there is none).
pub open spec fn insert_all(m: CacheModel, shards: Seq<ShardView>) -> (CacheModel, bool)
    decreases shards.len(),
{
    if shards.len() == 0 {
        (m, false)
    } else {
        insert_spec(insert_all(m, shards.drop_last()).0, shards.last())
    }
}

/// `m` holds nothing about the image of `t`.
pub open spec fn fresh_for(m: CacheModel, t: u16) -> bool {
    &&& !m.expected.contains_key(t)
    &&& !m.complete.contains_key(t)
    &&& forall|b: u8| #![trigger block_key(t, b)] !m.shards.contains_key(block_key(t, b))
        && !m.block_k.contains_key(block_key(t, b)) && !m.assembled.contains_key(block_key(t, b))
}

/// The state of the cache after the first `i` shards of `bytes` for `t`.
spec fn pipeline_inv(st: CacheModel, t: u16, bytes: Seq<u8>, i: nat) -> bool {
    let n = chunk_count(bytes.len());
    &&& (n > 1 && i >= 1 ==> st.expected.contains_key(t) && st.expected[t] == n as u8)
    &&& (n <= 1 || i == 0 ==> !st.expected.contains_key(t))
    &&& (i < n ==> !st.complete.contains_key(t))
    &&& (i == n ==> st.complete.contains_key(t) && st.complete[t] == bytes)
    &&& forall|b: u8| #![trigger block_key(t, b)] b < i ==> st.assembled.contains_key(block_key(t, b))
        && st.assembled[block_key(t, b)] == chunk(bytes, b as int)
    &&& forall|b: u8| #![trigger block_key(t, b)] b >= i ==> !st.shards.contains_key(block_key(t, b))
        && !st.block_k.contains_key(block_key(t, b)) && !st.assembled.contains_key(block_key(t, b))
}

proof fn lemma_block_key(t: u16, b: u8)
    ensures
        block_key(t, b) as int == t as int * 256 + b as int,
{
}

proof fn lemma_join_single(d: Seq<u8>, upto: nat)
    requires
        upto >= 1,
        upto <= 256,
    ensures
        join_by_index(seq![(0u8, d)], upto) == d,
    decreases upto,
{
    let b = seq![(0u8, d)];
    assert(data_at(b, 0) == d);
    if upto > 1 {
        lemma_join_single(d, (upto - 1) as nat);
        let j = (upto - 1) as u8;
        assert(b.drop_first().len() == 0);
        assert(data_at(b, j) == data_at(b.drop_first(), j));
        assert(data_at(b, j) =~= Seq::<u8>::empty());
        assert(join_by_index(b, upto) =~= join_by_index(b, (upto - 1) as nat) + data_at(b, j));
    } else {
        assert(join_by_index(b, 0) =~= Seq::<u8>::empty());
        assert(join_by_index(b, 1) =~= join_by_index(b, 0) + data_at(b, 0));
    }
}

proof fn lemma_join_chunks(assembled: Map<u32, Seq<u8>>, t: u16, bytes: Seq<u8>, c: nat)
    requires
        c <= chunk_count(bytes.len()),
        chunk_count(bytes.len()) <= 255,
        forall|b: u8| #![trigger block_key(t, b)] b < c ==> assembled.contains_key(block_key(t, b))
            && assembled[block_key(t, b)] == chunk(bytes, b as int),
    ensures
        join_blocks(assembled, t, c) == bytes.take(if c * SHARD_SIZE < bytes.len() { c * SHARD_SIZE } else { bytes.len() as int }),
    decreases c,
{
    if c == 0 {
        assert(bytes.take(0) =~= Seq::<u8>::empty());
    } else {
        let c1 = (c - 1) as nat;
        lemma_join_chunks(assembled, t, bytes, c1);
        let b = c1 as u8;
        assert(assembled[block_key(t, b)] == chunk(bytes, c1 as int));
        assert(c1 * SHARD_SIZE < bytes.len()) by (nonlinear_arith)
            requires c1 < chunk_count(bytes.len()), chunk_count(bytes.len()) == (bytes.len() + 1206) / 1207;
        assert(c * SHARD_SIZE == c1 * SHARD_SIZE + SHARD_SIZE) by (nonlinear_arith)
            requires c1 == c - 1;
        let e = if c * SHARD_SIZE < bytes.len() { c * SHARD_SIZE } else { bytes.len() as int };
        assert(bytes.take(e) =~= bytes.take(c1 * SHARD_SIZE) + chunk(bytes, c1 as int));
    }
}

proof fn lemma_pipeline_step(m: CacheModel, t: u16, bytes: Seq<u8>, i: nat)
    requires
        fresh_for(m, t),
        1 <= chunk_count(bytes.len()) <= 255,
        i <= chunk_count(bytes.len()),
    ensures
        pipeline_inv(insert_all(m, image_shard_views(t, bytes).take(i as int)).0, t, bytes, i),
        i >= 1 ==> insert_all(m, image_shard_views(t, bytes).take(i as int)).1 == (i == chunk_count(bytes.len())),
    decreases i,
{
    let n = chunk_count(bytes.len());
    let views = image_shard_views(t, bytes);
    if i == 0 {
        assert(views.take(0).len() == 0);
    } else {
        let i1 = (i - 1) as nat;
        lemma_pipeline_step(m, t, bytes, i1);
        assert(views.take(i as int).drop_last() =~= views.take(i1 as int));
        let st = insert_all(m, views.take(i1 as int)).0;
        let sv = views[i1 as int];
        assert(views.take(i as int).last() == sv);
        let b = i1 as u8;
        assert(b as nat == i1);
        let key = block_key(t, b);
        lemma_block_key(t, b);
        assert forall|bb: u8| bb != b implies #[trigger] block_key(t, bb) != key by {
            lemma_block_key(t, bb);
        }
        assert(sv.block_id == b && sv.target_id == t && sv.index == 0 && sv.k == 1);
        assert(sv.data == chunk(bytes, i1 as int));
        assert(sv.total_blocks == n as u8);
        assert(bucket_of(st, key) =~= Seq::<(u8, Seq<u8>)>::empty());
        assert(!has_index(bucket_of(st, key), 0));
        assert(bucket_of(st, key).push((0u8, sv.data)) =~= seq![(0u8, sv.data)]);
        lemma_join_single(sv.data, 256);
        let m1 = store_shard(st, sv);
        assert(m1.assembled.contains_key(key) && m1.assembled[key] == chunk(bytes, i1 as int));
        assert forall|bb: u8| #![trigger block_key(t, bb)] bb < i implies m1.assembled.contains_key(block_key(t, bb))
            && m1.assembled[block_key(t, bb)] == chunk(bytes, bb as int) by {
            if bb != b {
                assert(block_key(t, bb) != key);
            }
        }
        assert forall|bb: u8| #![trigger block_key(t, bb)] bb >= i implies !m1.shards.contains_key(block_key(t, bb))
            && !m1.block_k.contains_key(block_key(t, bb)) && !m1.assembled.contains_key(block_key(t, bb)) by {
            assert(bb != b);
            lemma_block_key(t, bb);
            assert(block_key(t, bb) != key);
        }
        if n <= 1 {
            assert(i == 1);
            assert(n * SHARD_SIZE >= bytes.len()) by (nonlinear_arith)
                requires n == (bytes.len() + 1206) / 1207;
            assert(chunk(bytes, 0) =~= bytes);
        } else {
            assert(n as u8 > 1);
            if i == n {
                lemma_join_chunks(m1.assembled, t, bytes, n);
                assert(n * SHARD_SIZE >= bytes.len()) by (nonlinear_arith)
                    requires n == (bytes.len() + 1206) / 1207;
                assert(bytes.take(bytes.len() as int) =~= bytes);
                assert(all_assembled(m1.assembled, t, n));
            } else {
                let nb = i as u8;
                assert(!m1.assembled.contains_key(block_key(t, nb)));
                assert(!all_assembled(m1.assembled, t, n));
            }
        }
    }
}

/// The image pipeline gives back the image: the shards that `image_shards`
/// cuts from `bytes` (at most 255 of them), inserted in order into a cache that
/// holds nothing about target `t`, complete the image only with the last
/// shard, and the completed image is exactly `bytes`.
pub proof fn lemma_image_pipeline(m: CacheModel, t: u16, bytes: Seq<u8>)
    requires
        fresh_for(m, t),
        1 <= chunk_count(bytes.len()) <= 255,
    ensures
        insert_all(m, image_shard_views(t, bytes)).1,
        insert_all(m, image_shard_views(t, bytes)).0.complete[t] == bytes,
        forall|i: int| 1 <= i < chunk_count(bytes.len()) ==> !(#[trigger] insert_all(m, image_shard_views(t, bytes).take(i))).1,
{
    let n = chunk_count(bytes.len());
    let views = image_shard_views(t, bytes);
    lemma_pipeline_step(m, t, bytes, n);
    assert(views.take(n as int) =~= views);
    assert forall|i: int| 1 <= i < n implies !(#[trigger] insert_all(m, views.take(i))).1 by {
        lemma_pipeline_step(m, t, bytes, i as nat);
    }
}

} // verus!
