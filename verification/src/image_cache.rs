use std::collections::HashMap;

use vstd::prelude::*;

use crate::frame::bytes_to_vec;
use crate::messages::ImageShard;

verus! {

broadcast use vstd::std_specs::hash::group_hash_axioms;

/// The key of block `block_id` of the image of `target_id`.
pub open spec fn block_key(target_id: u16, block_id: u8) -> u32 {
    (target_id as u32 * 256 + block_id as u32) as u32
}

/// The contents of a shard.
pub struct ShardView {
    pub target_id: u16,
    pub total_blocks: u8,
    pub block_id: u8,
    pub index: u8,
    pub k: u8,
    pub data: Seq<u8>,
}

/// The contents of an image shard message.
pub open spec fn shard_view(s: ImageShard) -> ShardView {
    ShardView {
        target_id: s.target_id,
        total_blocks: s.total_blocks,
        block_id: s.block_id,
        index: s.index,
        k: s.k,
        data: s.data@,
    }
}

/// The state of an image cache, by block key (see `block_key`).
pub struct CacheModel {
    /// Received shards of each block, as `(index, data)`, in arrival order.
    pub shards: Map<u32, Seq<(u8, Seq<u8>)>>,
    /// Shards needed per block (the `k` of its first shard).
    pub block_k: Map<u32, u8>,
    /// Reassembled blocks.
    pub assembled: Map<u32, Seq<u8>>,
    /// Number of blocks of each multi-block image.
    pub expected: Map<u16, u8>,
    /// Complete images.
    pub complete: Map<u16, Seq<u8>>,
}

/// Whether a bucket holds a shard with index `i`.
pub open spec fn has_index(bucket: Seq<(u8, Seq<u8>)>, i: u8) -> bool {
    exists|j: int| 0 <= j < bucket.len() && (#[trigger] bucket[j]).0 == i
}

/// The data of the first shard with index `i` in a bucket (empty if none).
pub open spec fn data_at(bucket: Seq<(u8, Seq<u8>)>, i: u8) -> Seq<u8>
    decreases bucket.len(),
{
    if bucket.len() == 0 {
        Seq::empty()
    } else if bucket[0].0 == i {
        bucket[0].1
    } else {
        data_at(bucket.drop_first(), i)
    }
}

/// The shards of a bucket with index below `upto`, joined in index order.
pub open spec fn join_by_index(bucket: Seq<(u8, Seq<u8>)>, upto: nat) -> Seq<u8>
    decreases upto,
{
    if upto == 0 {
        Seq::empty()
    } else {
        join_by_index(bucket, (upto - 1) as nat) + data_at(bucket, (upto - 1) as u8)
    }
}

/// Blocks `0..count` of the image of `t`, joined in order.
pub open spec fn join_blocks(assembled: Map<u32, Seq<u8>>, t: u16, count: nat) -> Seq<u8>
    decreases count,
{
    if count == 0 {
        Seq::empty()
    } else {
        join_blocks(assembled, t, (count - 1) as nat) + assembled[block_key(t, (count - 1) as u8)]
    }
}

/// Whether blocks `0..count` of the image of `t` are all reassembled.
pub open spec fn all_assembled(assembled: Map<u32, Seq<u8>>, t: u16, count: nat) -> bool {
    forall|b: u8| b < count ==> #[trigger] assembled.contains_key(block_key(t, b))
}

/// How many of blocks `0..count` of the image of `t` are reassembled.
pub open spec fn count_assembled(assembled: Map<u32, Seq<u8>>, t: u16, count: nat) -> nat
    decreases count,
{
    if count == 0 {
        0
    } else {
        count_assembled(assembled, t, (count - 1) as nat) + if assembled.contains_key(block_key(t, (count - 1) as u8)) { 1nat } else { 0nat }
    }
}

/// The bucket of block `key` (empty when none).
pub open spec fn bucket_of(m: CacheModel, key: u32) -> Seq<(u8, Seq<u8>)> {
    if m.shards.contains_key(key) { m.shards[key] } else { Seq::empty() }
}

/// The cache after storing shard `s`, before the completion check: the image
/// learns its block count from its first multi-block shard, the block its `k`
/// from its first shard, the shard is kept unless its index is already there,
/// and a block with at least `k` shards and not yet reassembled is reassembled
/// by joining its shards in index order.
pub open spec fn store_shard(m: CacheModel, s: ShardView) -> CacheModel {
    let key = block_key(s.target_id, s.block_id);
    let expected = if s.total_blocks > 1 && !m.expected.contains_key(s.target_id) {
        m.expected.insert(s.target_id, s.total_blocks)
    } else {
        m.expected
    };
    let block_k = if !m.block_k.contains_key(key) { m.block_k.insert(key, s.k) } else { m.block_k };
    let old_bucket = bucket_of(m, key);
    let bucket = if has_index(old_bucket, s.index) { old_bucket } else { old_bucket.push((s.index, s.data)) };
    let assembled = if bucket.len() >= block_k[key] && !m.assembled.contains_key(key) {
        m.assembled.insert(key, join_by_index(bucket, 256))
    } else {
        m.assembled
    };
    CacheModel { shards: m.shards.insert(key, bucket), block_k, assembled, expected, complete: m.complete }
}

/// The cache after inserting shard `s`, and whether that completed its image:
/// an image already complete stays as it is; a single-block image completes
/// with its reassembled block; a multi-block image completes, with its blocks
/// joined in order, once all its blocks are reassembled.
pub open spec fn insert_spec(m: CacheModel, s: ShardView) -> (CacheModel, bool) {
    let m1 = store_shard(m, s);
    let t = s.target_id;
    let key = block_key(t, s.block_id);
    let exp: nat = if m1.expected.contains_key(t) { m1.expected[t] as nat } else { 0 };
    if m.complete.contains_key(t) {
        (m1, false)
    } else if exp <= 1 {
        if m1.assembled.contains_key(key) {
            (CacheModel { complete: m1.complete.insert(t, m1.assembled[key]), ..m1 }, true)
        } else {
            (m1, false)
        }
    } else if all_assembled(m1.assembled, t, exp) {
        (CacheModel { complete: m1.complete.insert(t, join_blocks(m1.assembled, t, exp)), ..m1 }, true)
    } else {
        (m1, false)
    }
}

/// Reassembles images from shards, block by block.
pub struct ImageCache {
    shards: HashMap<u32, Vec<(u8, Vec<u8>)>>,
    block_k: HashMap<u32, u8>,
    assembled_blocks: HashMap<u32, Vec<u8>>,
    total_blocks_expected: HashMap<u16, u8>,
    complete: HashMap<u16, Vec<u8>>,
}

/// The contents of a bucket.
pub open spec fn bucket_view(v: Vec<(u8, Vec<u8>)>) -> Seq<(u8, Seq<u8>)> {
    v@.map_values(|p: (u8, Vec<u8>)| (p.0, p.1@))
}

impl View for ImageCache {
    type V = CacheModel;

    closed spec fn view(&self) -> CacheModel {
        CacheModel {
            shards: self.shards@.map_values(|v: Vec<(u8, Vec<u8>)>| bucket_view(v)),
            block_k: self.block_k@,
            assembled: self.assembled_blocks@.map_values(|v: Vec<u8>| v@),
            expected: self.total_blocks_expected@,
            complete: self.complete@.map_values(|v: Vec<u8>| v@),
        }
    }
}

proof fn lemma_data_at_skip(bucket: Seq<(u8, Seq<u8>)>, i: u8, j: int)
    requires
        0 <= j <= bucket.len(),
        forall|q: int| 0 <= q < j ==> (#[trigger] bucket[q]).0 != i,
    ensures
        data_at(bucket, i) == data_at(bucket.skip(j), i),
    decreases j,
{
    if j > 0 {
        let t = bucket.drop_first();
        assert forall|q: int| 0 <= q < j - 1 implies (#[trigger] t[q]).0 != i by {
            assert(t[q] == bucket[q + 1]);
        }
        lemma_data_at_skip(t, i, j - 1);
        assert(t.skip(j - 1) =~= bucket.skip(j));
        assert(bucket[0].0 != i);
    } else {
        assert(bucket.skip(0) =~= bucket);
    }
}

/// The key of block `block_id` of the image of `target_id`.
fn key_of(target_id: u16, block_id: u8) -> (r: u32)
    ensures
        r == block_key(target_id, block_id),
{
    (target_id as u32) * 256 + (block_id as u32)
}

/// Whether the bucket holds a shard with index `i`.
fn bucket_has(bucket: &Vec<(u8, Vec<u8>)>, i: u8) -> (r: bool)
    ensures
        r == has_index(bucket_view(*bucket), i),
{
    let ghost bv = bucket_view(*bucket);
    let mut j: usize = 0;
    while j < bucket.len()
        invariant
            j <= bucket@.len(),
            bv == bucket_view(*bucket),
            forall|q: int| 0 <= q < j ==> (#[trigger] bv[q]).0 != i,
        decreases bucket@.len() - j,
    {
        if bucket[j].0 == i {
            assert(bv[j as int].0 == i);
            return true;
        }
        j = j + 1;
    }
    false
}

/// Appends the data of the first shard with index `i` to `out`.
fn append_data_at(bucket: &Vec<(u8, Vec<u8>)>, i: u8, out: &mut Vec<u8>)
    ensures
        final(out)@ == old(out)@ + data_at(bucket_view(*bucket), i),
{
    let ghost bv = bucket_view(*bucket);
    let mut j: usize = 0;
    while j < bucket.len()
        invariant
            j <= bucket@.len(),
            bv == bucket_view(*bucket),
            out@ == old(out)@,
            forall|q: int| 0 <= q < j ==> (#[trigger] bv[q]).0 != i,
        decreases bucket@.len() - j,
    {
        if bucket[j].0 == i {
            proof {
                lemma_data_at_skip(bv, i, j as int);
                assert(bv.skip(j as int)[0] == bv[j as int]);
            }
            crate::frame::append_bytes(out, bucket[j].1.as_slice());
            return;
        }
        j = j + 1;
    }
    proof {
        lemma_data_at_skip(bv, i, j as int);
        assert(bv.skip(j as int).len() == 0);
        assert(data_at(bv, i) =~= Seq::<u8>::empty());
    }
    assert(out@ =~= old(out)@ + data_at(bv, i));
}

/// The shards of a bucket joined in index order.
fn join_bucket(bucket: &Vec<(u8, Vec<u8>)>) -> (r: Vec<u8>)
    ensures
        r@ == join_by_index(bucket_view(*bucket), 256),
{
    let mut out: Vec<u8> = Vec::new();
    let mut i: usize = 0;
    while i < 256
        invariant
            i <= 256,
            out@ == join_by_index(bucket_view(*bucket), i as nat),
        decreases 256 - i,
    {
        append_data_at(bucket, i as u8, &mut out);
        i = i + 1;
    }
    out
}

impl Default for ImageCache {
    /// An empty cache.
    fn default() -> (r: ImageCache)
        ensures
            r@ == (CacheModel {
                shards: Map::empty(),
                block_k: Map::empty(),
                assembled: Map::empty(),
                expected: Map::empty(),
                complete: Map::empty(),
            }),
    {
        ImageCache::new()
    }
}

impl ImageCache {
    /// An empty cache.
    pub fn new() -> (r: ImageCache)
        ensures
            r@ == (CacheModel {
                shards: Map::empty(),
                block_k: Map::empty(),
                assembled: Map::empty(),
                expected: Map::empty(),
                complete: Map::empty(),
            }),
    {
        let r = ImageCache {
            shards: HashMap::new(),
            block_k: HashMap::new(),
            assembled_blocks: HashMap::new(),
            total_blocks_expected: HashMap::new(),
            complete: HashMap::new(),
        };
        assert(r@.shards =~= Map::empty());
        assert(r@.assembled =~= Map::empty());
        assert(r@.complete =~= Map::empty());
        r
    }

    /// Whether blocks `0..count` of the image of `t` are all reassembled.
    fn all_blocks_assembled(&self, t: u16, count: u8) -> (r: bool)
        ensures
            r == all_assembled(self@.assembled, t, count as nat),
    {
        let mut b: u8 = 0;
        while b < count
            invariant
                b <= count,
                all_assembled(self@.assembled, t, b as nat),
            decreases count - b,
        {
            let key = key_of(t, b);
            if !self.assembled_blocks.contains_key(&key) {
                assert(!self@.assembled.contains_key(block_key(t, b)));
                return false;
            }
            b = b + 1;
        }
        true
    }

    /// Blocks `0..count` of the image of `t` joined in order.
    fn join_image(&self, t: u16, count: u8) -> (r: Vec<u8>)
        requires
            all_assembled(self@.assembled, t, count as nat),
        ensures
            r@ == join_blocks(self@.assembled, t, count as nat),
    {
        let mut out: Vec<u8> = Vec::new();
        let mut b: u8 = 0;
        while b < count
            invariant
                b <= count,
                all_assembled(self@.assembled, t, count as nat),
                out@ == join_blocks(self@.assembled, t, b as nat),
            decreases count - b,
        {
            let key = key_of(t, b);
            match self.assembled_blocks.get(&key) {
                Some(data) => {
                    crate::frame::append_bytes(&mut out, data.as_slice());
                },
                None => {},
            }
            assert(self@.assembled.contains_key(block_key(t, b)));
            b = b + 1;
        }
        out
    }

    /// Inserts a shard (see `insert_spec`): returns whether the image of its
    /// target became complete with it.
    pub fn insert_shard(&mut self, shard: ImageShard) -> (r: bool)
        ensures
            (final(self)@, r) == insert_spec(old(self)@, shard_view(shard)),
    {
        let ghost s = shard_view(shard);
        let ghost m0 = self@;
        let t = shard.target_id;
        let key = key_of(t, shard.block_id);
        let k = shard.k;
        let idx = shard.index;
        if shard.total_blocks > 1 && !self.total_blocks_expected.contains_key(&t) {
            self.total_blocks_expected.insert(t, shard.total_blocks);
        }
        if !self.block_k.contains_key(&key) {
            self.block_k.insert(key, k);
        }
        let mut bucket = match self.shards.remove(&key) {
            Some(v) => v,
            None => Vec::new(),
        };
        proof {
            assert(bucket_view(bucket) == bucket_of(m0, key));
        }
        if !bucket_has(&bucket, idx) {
            bucket.push((idx, shard.data));
            proof {
                assert(bucket_view(bucket) =~= bucket_of(m0, key).push((s.index, s.data)));
            }
        }
        let threshold: u8 = match self.block_k.get(&key) {
            Some(x) => *x,
            None => k,
        };
        if bucket.len() >= threshold as usize && !self.assembled_blocks.contains_key(&key) {
            let joined = join_bucket(&bucket);
            self.assembled_blocks.insert(key, joined);
        }
        self.shards.insert(key, bucket);
        let ghost m1 = store_shard(m0, s);
        proof {
            assert(self@.shards =~= m1.shards);
            assert(self@.assembled =~= m1.assembled);
            assert(self@.block_k =~= m1.block_k);
            assert(self@.expected =~= m1.expected);
            assert(self@.complete =~= m1.complete);
        }
        if self.complete.contains_key(&t) {
            return false;
        }
        let exp: u8 = match self.total_blocks_expected.get(&t) {
            Some(x) => *x,
            None => 0,
        };
        if exp <= 1 {
            match self.assembled_blocks.get(&key) {
                Some(data) => {
                    let d = bytes_to_vec(data.as_slice());
                    self.complete.insert(t, d);
                    proof {
                        assert(self@.complete =~= m1.complete.insert(t, m1.assembled[key]));
                        assert(self@.shards =~= m1.shards);
                        assert(self@.assembled =~= m1.assembled);
                    }
                    true
                },
                None => false,
            }
        } else if self.all_blocks_assembled(t, exp) {
            let full = self.join_image(t, exp);
            self.complete.insert(t, full);
            proof {
                assert(self@.complete =~= m1.complete.insert(t, join_blocks(m1.assembled, t, exp as nat)));
                assert(self@.shards =~= m1.shards);
                assert(self@.assembled =~= m1.assembled);
            }
            true
        } else {
            false
        }
    }

    /// The complete image of `target_id`, if any.
    pub fn get_complete(&self, target_id: u16) -> (r: Option<&[u8]>)
        ensures
            r is Some <==> self@.complete.contains_key(target_id),
            r matches Some(d) ==> d@ == self@.complete[target_id],
    {
        match self.complete.get(&target_id) {
            Some(v) => Some(v.as_slice()),
            None => None,
        }
    }

    /// How many blocks of the image of `target_id` are reassembled, counting
    /// blocks `0..n` for its block count `n` (1 when unknown).
    pub fn blocks_assembled(&self, target_id: u16) -> (r: u8)
        ensures
            r == count_assembled(self@.assembled, target_id,
                if self@.expected.contains_key(target_id) { self@.expected[target_id] as nat } else { 1 }),
    {
        let expected: u8 = match self.total_blocks_expected.get(&target_id) {
            Some(x) => *x,
            None => 1,
        };
        let mut n: u8 = 0;
        let mut b: u8 = 0;
        while b < expected
            invariant
                b <= expected,
                n == count_assembled(self@.assembled, target_id, b as nat),
                n <= b,
            decreases expected - b,
        {
            let key = key_of(target_id, b);
            if self.assembled_blocks.contains_key(&key) {
                n = n + 1;
            }
            b = b + 1;
        }
        n
    }

    /// Whether any shard of block `fec_block` of the image of `target_id` was kept.
    pub fn has_shard(&self, target_id: u16, fec_block: u8) -> (r: bool)
        ensures
            r == (bucket_of(self@, block_key(target_id, fec_block)).len() > 0),
    {
        let key = key_of(target_id, fec_block);
        match self.shards.get(&key) {
            Some(v) => v.len() > 0,
            None => false,
        }
    }
}

} // verus!
