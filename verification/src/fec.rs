use std::collections::BTreeMap;

use vstd::prelude::*;

use crate::errors::FrameError;
use crate::frame::{append_bytes, bytes_to_vec};
use crate::priority::Priority;

verus! {

broadcast use {vstd::std_specs::btree::group_btree_axioms, vstd::laws_cmp::group_laws_cmp};

/// Payloads longer than this are split into Reed-Solomon shards.
pub const FEC_THRESHOLD_BYTES: usize = 1024;

/// `(data_shards, total_shards)` for a priority: the more urgent, the more redundancy.
pub open spec fn fec_params_spec(prio: Priority) -> (usize, usize) {
    match prio {
        Priority::Emergency => (1, 4),
        Priority::Critical => (1, 3),
        Priority::High => (1, 2),
        Priority::Bulk => (8, 12),
    }
}

/// `(data_shards, total_shards)` per priority.
pub fn fec_params(prio: Priority) -> (r: (usize, usize))
    ensures
        r == fec_params_spec(prio),
        1 <= r.0 < r.1 <= 12,
{
    match prio {
        Priority::Emergency => (1, 4),
        Priority::Critical => (1, 3),
        Priority::High => (1, 2),
        Priority::Bulk => (8, 12),
    }
}

/// What `reed_solomon_simd::encode(original_count, recovery_count, originals)`
/// returns: the recovery shards, or the text of its error.
pub uninterp spec fn rs_encode_outcome(original_count: nat, recovery_count: nat, originals: Seq<Seq<u8>>) -> Result<Seq<Seq<u8>>, Seq<char>>;

/// What `reed_solomon_simd::decode(original_count, recovery_count, originals, recoveries)`
/// returns: the restored original shards by index, or the text of its error.
pub uninterp spec fn rs_decode_outcome(
    original_count: nat, recovery_count: nat, originals: Seq<(usize, Seq<u8>)>, recoveries: Seq<(usize, Seq<u8>)>,
) -> Result<Map<usize, Seq<u8>>, Seq<char>>;

/// The contents of a list of shards.
pub open spec fn shards_view(v: Seq<Vec<u8>>) -> Seq<Seq<u8>> {
    v.map_values(|s: Vec<u8>| s@)
}

/// The contents of a list of indexed shards.
pub open spec fn pairs_view(v: Seq<(usize, Vec<u8>)>) -> Seq<(usize, Seq<u8>)> {
    v.map_values(|p: (usize, Vec<u8>)| (p.0, p.1@))
}

/// The indexed shards in `given` are shards of `all` with distinct in-range indexes.
pub open spec fn indexed_subset(given: Seq<(usize, Seq<u8>)>, all: Seq<Seq<u8>>) -> bool {
    &&& forall|j: int| 0 <= j < given.len() ==> (#[trigger] given[j]).0 < all.len()
        && given[j].1 == all[given[j].0 as int]
    &&& forall|a: int, b: int| 0 <= a < b < given.len() ==> (#[trigger] given[a]).0 != (#[trigger] given[b]).0
}

/// Whether original index `i` is among the given shards.
pub open spec fn index_given(given: Seq<(usize, Seq<u8>)>, i: int) -> bool {
    exists|j: int| 0 <= j < given.len() && (#[trigger] given[j]).0 == i
}

/// `reed_solomon_simd::encode`: the contract names the outcome
/// `rs_encode_outcome(k, r, originals)` and claims that on success there are
/// `recovery_count` recovery shards, each as long as the first original, as the
/// source builds them.
#[verifier::external_body]
fn rs_encode(original_count: usize, recovery_count: usize, originals: &Vec<Vec<u8>>) -> (res: Result<Vec<Vec<u8>>, String>)
    ensures
        match res {
            Ok(v) => rs_encode_outcome(original_count as nat, recovery_count as nat, shards_view(originals@))
                == Ok::<Seq<Seq<u8>>, Seq<char>>(shards_view(v@)) && v@.len() == recovery_count
                && originals@.len() > 0 && forall|i: int| 0 <= i < v@.len() ==> (#[trigger] v@[i])@.len() == originals@[0]@.len(),
            Err(e) => rs_encode_outcome(original_count as nat, recovery_count as nat, shards_view(originals@))
                == Err::<Seq<Seq<u8>>, Seq<char>>(e@),
        },
{
    reed_solomon_simd::encode(original_count, recovery_count, originals).map_err(|e| e.to_string())
}

/// `reed_solomon_simd::decode`: the contract names the outcome
/// `rs_decode_outcome(k, r, originals, recoveries)`, and states the property the
/// crate documents ("decoding requires as many shards as there were original
/// shards in total, in any combination"): when the given shards, with distinct
/// indexes, come from one successful encoding of `full` and number at least `k`,
/// decoding succeeds and restores every original shard that was not given.
#[verifier::external_body]
fn rs_decode(
    original_count: usize, recovery_count: usize, originals: &Vec<(usize, Vec<u8>)>, recoveries: &Vec<(usize, Vec<u8>)>,
) -> (res: Result<BTreeMap<usize, Vec<u8>>, String>)
    ensures
        match res {
            Ok(m) => rs_decode_outcome(original_count as nat, recovery_count as nat, pairs_view(originals@), pairs_view(recoveries@))
                == Ok::<Map<usize, Seq<u8>>, Seq<char>>(m@.map_values(|v: Vec<u8>| v@)),
            Err(e) => rs_decode_outcome(original_count as nat, recovery_count as nat, pairs_view(originals@), pairs_view(recoveries@))
                == Err::<Map<usize, Seq<u8>>, Seq<char>>(e@),
        },
        forall|full: Seq<Seq<u8>>|
            #![trigger rs_encode_outcome(original_count as nat, recovery_count as nat, full)]
            full.len() == original_count && rs_encode_outcome(original_count as nat, recovery_count as nat, full) is Ok
                && indexed_subset(pairs_view(originals@), full)
                && indexed_subset(pairs_view(recoveries@), rs_encode_outcome(original_count as nat, recovery_count as nat, full)->Ok_0)
                && originals@.len() + recoveries@.len() >= original_count
            ==> (res matches Ok(m) && forall|i: int| 0 <= i < original_count && !index_given(pairs_view(originals@), i)
                ==> #[trigger] m@.contains_key(i as usize) && m@[i as usize]@ == full[i]),
{
    reed_solomon_simd::decode(original_count, recovery_count, originals.iter().map(|(i, s)| (*i, s)), recoveries.iter().map(|(i, s)| (*i, s))).map_err(|e| e.to_string())
}

/// Shard length for `len` bytes split into `k` data shards.
pub open spec fn shard_size(len: nat, k: nat) -> nat {
    ((len + k - 1) / (k as int)) as nat
}

/// `data` followed by zero bytes up to length `total`.
pub open spec fn zero_pad(data: Seq<u8>, total: nat) -> Seq<u8> {
    data + Seq::new((total - data.len()) as nat, |i: int| 0u8)
}

/// The `k` data shards of `data`: zero-padded to `k * shard_size`, cut evenly.
pub open spec fn fec_data_shards(data: Seq<u8>, k: nat) -> Seq<Seq<u8>> {
    let ss = shard_size(data.len(), k);
    let padded = zero_pad(data, ss * k);
    chunks(padded, ss, k)
}

/// The first `c` consecutive pieces of length `ss` of `p`.
pub open spec fn chunks(p: Seq<u8>, ss: nat, c: nat) -> Seq<Seq<u8>> {
    Seq::new(c, |i: int| p.subrange(i * ss, i * ss + ss))
}

/// Concatenation of shards in order.
pub open spec fn concat_shards(s: Seq<Seq<u8>>) -> Seq<u8>
    decreases s.len(),
{
    if s.len() == 0 {
        Seq::empty()
    } else {
        concat_shards(s.drop_last()) + s.last()
    }
}

/// Encodes `data` into `n` shards for the priority's `(k, n)`: `k` data shards
/// (zero-padded to a common length) followed by `n - k` recovery shards.
pub fn fec_encode(data: &[u8], prio: Priority) -> (r: Result<Vec<Vec<u8>>, FrameError>)
    requires
        data@.len() + 16 <= usize::MAX,
    ensures
        ({
            let (k, n) = fec_params_spec(prio);
            let orig = fec_data_shards(data@, k as nat);
            match rs_encode_outcome(k as nat, (n - k) as nat, orig) {
                Ok(rec) => r matches Ok(v) && shards_view(v@) == orig + rec && rec.len() == n - k
                    && forall|i: int| 0 <= i < v@.len() ==> (#[trigger] v@[i])@.len() == shard_size(data@.len(), k as nat)
                    && forall|i: int| 0 <= i < rec.len() ==> (#[trigger] rec[i]).len() == shard_size(data@.len(), k as nat),
                Err(m) => r matches Err(FrameError::FecError(s)) && s@ == m,
            }
        }),
{
    let (k, n) = fec_params(prio);
    let recovery = n - k;
    let len = data.len();
    let ss = (len + k - 1) / k;
    let ghost padded = zero_pad(data@, (ss * k) as nat);
    assert(ss * k >= len && ss * k <= len + k) by (nonlinear_arith)
        requires ss == (len + k - 1) / (k as int), k >= 1;
    let mut buf = bytes_to_vec(data);
    let total = ss * k;
    while buf.len() < total
        invariant
            len <= buf@.len() <= total,
            total == ss * k,
            buf@ == padded.subrange(0, buf@.len() as int),
            padded == zero_pad(data@, total as nat),
            padded.len() == total,
            data@.len() == len,
        decreases total - buf@.len(),
    {
        let ghost before = buf@.len();
        assert(padded[before as int] == 0u8);
        buf.push(0);
        assert(buf@ =~= padded.subrange(0, buf@.len() as int));
    }
    assert(buf@ =~= padded);
    let mut originals: Vec<Vec<u8>> = Vec::new();
    let mut i: usize = 0;
    while i < k
        invariant
            1 <= k <= 8,
            0 <= i <= k,
            total == ss * k,
            buf@ == padded,
            padded == zero_pad(data@, total as nat),
            padded.len() == total,
            originals@.len() == i,
            forall|j: int| 0 <= j < i ==> (#[trigger] originals@[j])@ == fec_data_shards(data@, k as nat)[j],
            forall|j: int| 0 <= j < i ==> (#[trigger] originals@[j])@.len() == ss,
            shard_size(data@.len(), k as nat) == ss,
        decreases k - i,
    {
        assert(i * ss + ss <= total) by (nonlinear_arith)
            requires i < k, total == ss * k;
        let chunk = bytes_to_vec(&buf[i * ss..i * ss + ss]);
        originals.push(chunk);
        assert(originals@[i as int]@ == fec_data_shards(data@, k as nat)[i as int]);
        i = i + 1;
    }
    let ghost orig = fec_data_shards(data@, k as nat);
    assert(shards_view(originals@) =~= orig);
    let recovery_shards = match rs_encode(k, recovery, &originals) {
        Ok(v) => v,
        Err(e) => return Err(FrameError::FecError(e)),
    };
    let ghost rec = shards_view(recovery_shards@);
    assert(originals@[0]@ == orig[0]);
    assert forall|q: int| 0 <= q < rec.len() implies (#[trigger] rec[q]).len() == ss by {
        assert(rec[q] == recovery_shards@[q]@);
    }
    let mut all: Vec<Vec<u8>> = Vec::new();
    let mut j: usize = 0;
    while j < k
        invariant
            0 <= j <= k,
            originals@.len() == k,
            shards_view(originals@) == orig,
            all@.len() == j,
            forall|q: int| 0 <= q < j ==> (#[trigger] all@[q])@ == orig[q],
            forall|q: int| 0 <= q < k ==> (#[trigger] originals@[q])@.len() == ss,
        decreases k - j,
    {
        assert(shards_view(originals@)[j as int] == originals@[j as int]@);
        all.push(bytes_to_vec(originals[j].as_slice()));
        j = j + 1;
    }
    let mut t: usize = 0;
    while t < recovery
        invariant
            0 <= t <= recovery,
            orig.len() == k,
            recovery_shards@.len() == recovery,
            shards_view(recovery_shards@) == rec,
            all@.len() == k + t,
            forall|q: int| 0 <= q < k + t ==> (#[trigger] all@[q])@ == (orig + rec)[q],
        decreases recovery - t,
    {
        assert(shards_view(recovery_shards@)[t as int] == recovery_shards@[t as int]@);
        all.push(bytes_to_vec(recovery_shards[t].as_slice()));
        t = t + 1;
    }
    assert(shards_view(all@) =~= orig + rec);
    assert forall|q: int| 0 <= q < all@.len() implies (#[trigger] all@[q])@.len() == ss by {
        if q < k {
            assert(shards_view(originals@)[q] == originals@[q]@);
        } else {
            assert(rec[q - k] == (orig + rec)[q]);
        }
    }
    Ok(all)
}

/// The contents of a list of optional shards.
pub open spec fn opt_view(s: Seq<Option<Vec<u8>>>) -> Seq<Option<Seq<u8>>> {
    s.map_values(|o: Option<Vec<u8>>| match o {
        Some(v) => Some(v@),
        None => None,
    })
}

/// Whether any shard is present.
pub open spec fn any_present(sv: Seq<Option<Seq<u8>>>) -> bool {
    exists|i: int| 0 <= i < sv.len() && (#[trigger] sv[i]) is Some
}

/// The present data shards (index below `k`) with their indexes, in order.
pub open spec fn given_originals(sv: Seq<Option<Seq<u8>>>, k: nat) -> Seq<(usize, Seq<u8>)>
    decreases sv.len(),
{
    if sv.len() == 0 {
        Seq::empty()
    } else {
        let prev = given_originals(sv.drop_last(), k);
        let i = sv.len() - 1;
        if i < k && sv.last() is Some {
            prev.push((i as usize, sv.last()->Some_0))
        } else {
            prev
        }
    }
}

/// The present recovery shards (index `k` and above) with their recovery indexes, in order.
pub open spec fn given_recoveries(sv: Seq<Option<Seq<u8>>>, k: nat) -> Seq<(usize, Seq<u8>)>
    decreases sv.len(),
{
    if sv.len() == 0 {
        Seq::empty()
    } else {
        let prev = given_recoveries(sv.drop_last(), k);
        let i = sv.len() - 1;
        if i >= k && sv.last() is Some {
            prev.push(((i - k) as usize, sv.last()->Some_0))
        } else {
            prev
        }
    }
}

/// The `k` data shards: the given ones, and the restored ones from `m` elsewhere.
pub open spec fn joined(sv: Seq<Option<Seq<u8>>>, m: Map<usize, Seq<u8>>, k: nat) -> Seq<Seq<u8>> {
    Seq::new(k, |i: int| if i < sv.len() && sv[i] is Some { sv[i]->Some_0 } else { m[i as usize] })
}

/// Every data shard that is not given is restored in `m`.
pub open spec fn restores_missing(sv: Seq<Option<Seq<u8>>>, m: Map<usize, Seq<u8>>, k: nat) -> bool {
    forall|i: int| 0 <= i < k && !(i < sv.len() && sv[i] is Some) ==> #[trigger] m.contains_key(i as usize)
}

/// `Vec::truncate(olen)` on a sequence.
pub open spec fn truncated(s: Seq<u8>, olen: nat) -> Seq<u8> {
    if olen < s.len() { s.take(olen as int) } else { s }
}

/// What decoding produces, or `None` when it fails.
pub open spec fn fec_decode_spec(sv: Seq<Option<Seq<u8>>>, k: nat, n: nat, olen: nat) -> Option<Seq<u8>> {
    let og = given_originals(sv, k);
    let rg = given_recoveries(sv, k);
    if !any_present(sv) {
        None
    } else if og.len() == k {
        Some(truncated(concat_shards(og.map_values(|p: (usize, Seq<u8>)| p.1)), olen))
    } else {
        match rs_decode_outcome(k, (n - k) as nat, og, rg) {
            Err(_) => None,
            Ok(m) => if restores_missing(sv, m, k) {
                Some(truncated(concat_shards(joined(sv, m, k)), olen))
            } else {
                None
            },
        }
    }
}

/// The shards were produced by one successful encoding of `full`, some possibly
/// lost, and at least `k` survive.
pub open spec fn fec_consistent(full: Seq<Seq<u8>>, sv: Seq<Option<Seq<u8>>>, k: nat, n: nat) -> bool {
    &&& full.len() == k
    &&& k >= 1
    &&& k <= n
    &&& rs_encode_outcome(k, (n - k) as nat, full) is Ok
    &&& rs_encode_outcome(k, (n - k) as nat, full)->Ok_0.len() == n - k
    &&& sv.len() == n
    &&& forall|i: int| 0 <= i < n && (#[trigger] sv[i]) is Some
        ==> sv[i]->Some_0 == (full + rs_encode_outcome(k, (n - k) as nat, full)->Ok_0)[i]
    &&& given_originals(sv, k).len() + given_recoveries(sv, k).len() >= k
}

proof fn lemma_given_lists(sv: Seq<Option<Seq<u8>>>, k: nat)
    requires
        sv.len() <= usize::MAX,
    ensures
        forall|j: int| 0 <= j < given_originals(sv, k).len() ==> {
            let p = #[trigger] given_originals(sv, k)[j];
            &&& p.0 < k && p.0 < sv.len() && sv[p.0 as int] == Some(p.1)
        },
        forall|a: int, b: int| 0 <= a < b < given_originals(sv, k).len()
            ==> (#[trigger] given_originals(sv, k)[a]).0 < (#[trigger] given_originals(sv, k)[b]).0,
        forall|j: int| 0 <= j < given_recoveries(sv, k).len() ==> {
            let p = #[trigger] given_recoveries(sv, k)[j];
            &&& p.0 + k < sv.len() && sv[p.0 + k] == Some(p.1)
        },
        forall|a: int, b: int| 0 <= a < b < given_recoveries(sv, k).len()
            ==> (#[trigger] given_recoveries(sv, k)[a]).0 < (#[trigger] given_recoveries(sv, k)[b]).0,
        forall|i: int| 0 <= i < k && i < sv.len() && (#[trigger] sv[i]) is Some ==> index_given(given_originals(sv, k), i),
        forall|i: int| 0 <= i < k && index_given(given_originals(sv, k), i) ==> i < sv.len() && sv[i] is Some,
        given_originals(sv, k).len() <= k,
        given_originals(sv, k).len() <= sv.len(),
    decreases sv.len(),
{
    if sv.len() > 0 {
        let d = sv.drop_last();
        lemma_given_lists(d, k);
        let i = sv.len() - 1;
        assert forall|q: int| 0 <= q < d.len() implies d[q] == sv[q] by {}
        assert(sv.last() == sv[i]);
        let og = given_originals(sv, k);
        let pog = given_originals(d, k);
        let rg = given_recoveries(sv, k);
        let prg = given_recoveries(d, k);
        if i < k && sv[i] is Some {
            assert(og == pog.push((i as usize, sv[i]->Some_0)));
        } else {
            assert(og == pog);
        }
        if i >= k && sv[i] is Some {
            assert(rg == prg.push(((i - k) as usize, sv[i]->Some_0)));
        } else {
            assert(rg == prg);
        }
        assert forall|j: int| 0 <= j < og.len() implies {
            let p = #[trigger] og[j];
            &&& p.0 < k && p.0 < sv.len() && sv[p.0 as int] == Some(p.1)
        } by {
            if j < pog.len() {
                assert(og[j] == pog[j]);
            }
        }
        assert forall|a: int, b: int| 0 <= a < b < og.len() implies (#[trigger] og[a]).0 < (#[trigger] og[b]).0 by {
            if b < pog.len() {
                assert(og[a] == pog[a] && og[b] == pog[b]);
            } else {
                assert(og[a] == pog[a]);
            }
        }
        assert forall|j: int| 0 <= j < rg.len() implies {
            let p = #[trigger] rg[j];
            &&& p.0 + k < sv.len() && sv[p.0 + k] == Some(p.1)
        } by {
            if j < prg.len() {
                assert(rg[j] == prg[j]);
            }
        }
        assert forall|a: int, b: int| 0 <= a < b < rg.len() implies (#[trigger] rg[a]).0 < (#[trigger] rg[b]).0 by {
            if b < prg.len() {
                assert(rg[a] == prg[a] && rg[b] == prg[b]);
            } else {
                assert(rg[a] == prg[a]);
            }
        }
        assert forall|ii: int| 0 <= ii < k && ii < sv.len() && (#[trigger] sv[ii]) is Some implies index_given(og, ii) by {
            if ii == i {
                assert(og[og.len() - 1].0 == ii);
            } else {
                assert(d[ii] == sv[ii]);
                let j = choose|j: int| 0 <= j < pog.len() && (#[trigger] pog[j]).0 == ii;
                assert(og[j] == pog[j]);
            }
        }
        assert forall|ii: int| 0 <= ii < k && index_given(og, ii) implies ii < sv.len() && sv[ii] is Some by {
            let j = choose|j: int| 0 <= j < og.len() && (#[trigger] og[j]).0 == ii;
            if j < pog.len() {
                assert(og[j] == pog[j]);
                assert(index_given(pog, ii));
            }
        }
        if pog.len() == k && i < k && sv[i] is Some {
            lemma_strict_increasing_bound(pog, k);
            assert(pog[k - 1].0 >= k - 1);
            assert(pog[k - 1].0 < d.len());
        }
    }
}

/// A strictly increasing list of indexes below `sv.len() - 1`... bounded by its length.
proof fn lemma_strict_increasing_bound(s: Seq<(usize, Seq<u8>)>, k: nat)
    requires
        forall|a: int, b: int| 0 <= a < b < s.len() ==> (#[trigger] s[a]).0 < (#[trigger] s[b]).0,
        s.len() > 0 ==> s[0].0 >= 0,
    ensures
        forall|j: int| 0 <= j < s.len() ==> (#[trigger] s[j]).0 >= j,
    decreases s.len(),
{
    if s.len() > 0 {
        lemma_strict_increasing_bound(s.drop_last(), k);
        assert forall|j: int| 0 <= j < s.len() implies (#[trigger] s[j]).0 >= j by {
            if j < s.len() - 1 {
                assert(s.drop_last()[j] == s[j]);
            } else if j > 0 {
                assert(s.drop_last()[j - 1] == s[j - 1]);
                assert(s[j - 1].0 < s[j].0);
            }
        }
    }
}

/// Whether any shard is present.
fn any_shard_present(shards: &[Option<Vec<u8>>]) -> (b: bool)
    ensures
        b == any_present(opt_view(shards@)),
{
    let ghost sv = opt_view(shards@);
    let mut q: usize = 0;
    while q < shards.len()
        invariant
            0 <= q <= shards@.len(),
            sv == opt_view(shards@),
            forall|x: int| 0 <= x < q ==> !(#[trigger] sv[x] is Some),
        decreases shards@.len() - q,
    {
        if shards[q].is_some() {
            assert(sv[q as int] is Some);
            return true;
        }
        q = q + 1;
    }
    false
}

/// Splits the present shards into data shards `(index, shard)` and recovery
/// shards `(index - k, shard)`, each in index order.
fn split_shards(shards: &[Option<Vec<u8>>], k: usize) -> (r: (Vec<(usize, Vec<u8>)>, Vec<(usize, Vec<u8>)>))
    ensures
        pairs_view(r.0@) == given_originals(opt_view(shards@), k as nat),
        pairs_view(r.1@) == given_recoveries(opt_view(shards@), k as nat),
{
    let ghost sv = opt_view(shards@);
    let mut originals: Vec<(usize, Vec<u8>)> = Vec::new();
    let mut recoveries: Vec<(usize, Vec<u8>)> = Vec::new();
    let mut i: usize = 0;
    while i < shards.len()
        invariant
            0 <= i <= shards@.len(),
            sv == opt_view(shards@),
            pairs_view(originals@) == given_originals(sv.take(i as int), k as nat),
            pairs_view(recoveries@) == given_recoveries(sv.take(i as int), k as nat),
        decreases shards@.len() - i,
    {
        let ghost t = sv.take(i + 1);
        assert(t.drop_last() =~= sv.take(i as int));
        assert(t.last() == sv[i as int]);
        match &shards[i] {
            Some(sh) => {
                let copy = bytes_to_vec(sh.as_slice());
                if i < k {
                    originals.push((i, copy));
                    assert(pairs_view(originals@) =~= given_originals(t, k as nat));
                } else {
                    recoveries.push((i - k, copy));
                    assert(pairs_view(recoveries@) =~= given_recoveries(t, k as nat));
                }
            },
            None => {
                assert(pairs_view(originals@) =~= given_originals(t, k as nat));
                assert(pairs_view(recoveries@) =~= given_recoveries(t, k as nat));
            },
        }
        i = i + 1;
    }
    assert(sv.take(shards@.len() as int) =~= sv);
    (originals, recoveries)
}

/// Concatenates the shards of a list of indexed shards, in list order.
fn concat_given(originals: &Vec<(usize, Vec<u8>)>) -> (out: Vec<u8>)
    ensures
        out@ == concat_shards(pairs_view(originals@).map_values(|p: (usize, Seq<u8>)| p.1)),
{
    let ghost parts = pairs_view(originals@).map_values(|p: (usize, Seq<u8>)| p.1);
    let mut out: Vec<u8> = Vec::new();
    let mut j: usize = 0;
    while j < originals.len()
        invariant
            0 <= j <= originals@.len(),
            parts == pairs_view(originals@).map_values(|p: (usize, Seq<u8>)| p.1),
            out@ == concat_shards(parts.take(j as int)),
        decreases originals@.len() - j,
    {
        assert(parts.take(j + 1).drop_last() =~= parts.take(j as int));
        assert(pairs_view(originals@)[j as int] == (originals@[j as int].0, originals@[j as int].1@));
        append_bytes(&mut out, originals[j].1.as_slice());
        j = j + 1;
    }
    assert(parts.take(originals@.len() as int) =~= parts);
    out
}

/// Joins the `k` data shards: each present one from `shards`, each missing one
/// from `restored`; `None` when a missing one was not restored.
fn join_restored(shards: &[Option<Vec<u8>>], restored: &BTreeMap<usize, Vec<u8>>, k: usize) -> (r: Option<Vec<u8>>)
    ensures
        ({
            let sv = opt_view(shards@);
            let m = restored@.map_values(|v: Vec<u8>| v@);
            &&& r is Some <==> restores_missing(sv, m, k as nat)
            &&& r matches Some(v) ==> v@ == concat_shards(joined(sv, m, k as nat))
        }),
{
    let ghost sv = opt_view(shards@);
    let ghost m = restored@.map_values(|v: Vec<u8>| v@);
    let mut out: Vec<u8> = Vec::new();
    let mut j: usize = 0;
    while j < k
        invariant
            0 <= j <= k,
            sv == opt_view(shards@),
            m == restored@.map_values(|v: Vec<u8>| v@),
            forall|x: int| 0 <= x < j && !(x < sv.len() && sv[x] is Some) ==> #[trigger] m.contains_key(x as usize),
            out@ == concat_shards(joined(sv, m, k as nat).take(j as int)),
        decreases k - j,
    {
        let ghost jn = joined(sv, m, k as nat);
        assert(jn.take(j + 1).drop_last() =~= jn.take(j as int));
        let present = j < shards.len() && shards[j].is_some();
        if present {
            match &shards[j] {
                Some(sh) => {
                    append_bytes(&mut out, sh.as_slice());
                },
                None => {},
            }
        } else {
            match restored.get(&j) {
                Some(v) => {
                    append_bytes(&mut out, v.as_slice());
                },
                None => {
                    assert(!m.contains_key(j as usize));
                    return None;
                },
            }
        }
        j = j + 1;
    }
    assert(joined(sv, m, k as nat).take(k as int) =~= joined(sv, m, k as nat));
    Some(out)
}

/// Under consistency at least one shard is present.
proof fn lemma_consistent_some_present(full: Seq<Seq<u8>>, sv: Seq<Option<Seq<u8>>>, k: nat, n: nat)
    requires
        fec_consistent(full, sv, k, n),
        sv.len() <= usize::MAX,
    ensures
        any_present(sv),
{
    lemma_given_lists(sv, k);
    let og = given_originals(sv, k);
    let rg = given_recoveries(sv, k);
    if og.len() > 0 {
        assert(sv[og[0].0 as int] is Some);
    } else {
        assert(sv[rg[0].0 + k] is Some);
    }
}

/// Under consistency, when every data shard is present, their concatenation is
/// that of the encoded data shards.
proof fn lemma_direct_join(full: Seq<Seq<u8>>, sv: Seq<Option<Seq<u8>>>, k: nat, n: nat)
    requires
        fec_consistent(full, sv, k, n),
        sv.len() <= usize::MAX,
        given_originals(sv, k).len() == k,
    ensures
        concat_shards(given_originals(sv, k).map_values(|p: (usize, Seq<u8>)| p.1)) == concat_shards(full),
{
    let og = given_originals(sv, k);
    let parts = og.map_values(|p: (usize, Seq<u8>)| p.1);
    lemma_consistent_subsets(full, sv, k, n);
    lemma_given_lists(sv, k);
    lemma_strict_increasing_bound(og, k);
    lemma_strict_increasing_upper(og, k);
    assert forall|x: int| 0 <= x < parts.len() implies parts[x] == full[x] by {
        assert(og[x].0 == x);
    }
    lemma_concat_ext(parts, full);
}

/// Under consistency, a map that restores every data shard not given (with its
/// encoded content) fills the gaps, and the joined shards are the encoded ones.
proof fn lemma_restored_join(full: Seq<Seq<u8>>, sv: Seq<Option<Seq<u8>>>, m: Map<usize, Seq<u8>>, k: nat, n: nat)
    requires
        fec_consistent(full, sv, k, n),
        sv.len() <= usize::MAX,
        forall|i: int| 0 <= i < k && !index_given(given_originals(sv, k), i)
            ==> #[trigger] m.contains_key(i as usize) && m[i as usize] == full[i],
    ensures
        restores_missing(sv, m, k),
        concat_shards(joined(sv, m, k)) == concat_shards(full),
{
    lemma_consistent_subsets(full, sv, k, n);
    lemma_given_lists(sv, k);
    let og = given_originals(sv, k);
    assert forall|i: int| 0 <= i < k && !(i < sv.len() && sv[i] is Some) implies #[trigger] m.contains_key(i as usize) by {
        assert(!index_given(og, i));
    }
    let jn = joined(sv, m, k);
    assert forall|x: int| 0 <= x < jn.len() implies jn[x] == full[x] by {
        if !(x < sv.len() && sv[x] is Some) {
            assert(!index_given(og, x));
            assert(m.contains_key(x as usize));
        }
    }
    lemma_concat_ext(jn, full);
}

/// Decoding with its exact outcome and its behaviour on consistent shards.
fn fec_decode_shards(shards: &[Option<Vec<u8>>], k: usize, n: usize, original_len: usize) -> (r: Result<Vec<u8>, FrameError>)
    requires
        k <= n,
    ensures
        ({
            let spec = fec_decode_spec(opt_view(shards@), k as nat, n as nat, original_len as nat);
            &&& r is Ok <==> spec is Some
            &&& r matches Ok(v) ==> spec == Some(v@)
        }),
        forall|full: Seq<Seq<u8>>|
            #![trigger rs_encode_outcome(k as nat, (n - k) as nat, full)]
            fec_consistent(full, opt_view(shards@), k as nat, n as nat)
            ==> r == Ok::<Vec<u8>, FrameError>(r->Ok_0) && r->Ok_0@ == truncated(concat_shards(full), original_len as nat),
{
    let recovery = n - k;
    let ghost sv = opt_view(shards@);
    assert(sv.len() == shards@.len());
    if !any_shard_present(shards) {
        proof {
            assert forall|full: Seq<Seq<u8>>| #[trigger] rs_encode_outcome(k as nat, (n - k) as nat, full) is Ok
                implies !fec_consistent(full, sv, k as nat, n as nat) by {
                if fec_consistent(full, sv, k as nat, n as nat) {
                    lemma_consistent_some_present(full, sv, k as nat, n as nat);
                }
            }
        }
        return Err(FrameError::FecError("all shards missing".to_owned()));
    }
    let (originals, recoveries) = split_shards(shards, k);
    let ghost og = given_originals(sv, k as nat);
    assert(pairs_view(originals@).len() == originals@.len());
    assert(pairs_view(recoveries@).len() == recoveries@.len());
    if originals.len() == k {
        let mut out = concat_given(&originals);
        proof {
            assert forall|full: Seq<Seq<u8>>| #[trigger] rs_encode_outcome(k as nat, (n - k) as nat, full) is Ok
                && fec_consistent(full, sv, k as nat, n as nat) implies
                concat_shards(og.map_values(|p: (usize, Seq<u8>)| p.1)) == concat_shards(full) by {
                lemma_direct_join(full, sv, k as nat, n as nat);
            }
        }
        out.truncate(original_len);
        return Ok(out);
    }
    proof {
        assert forall|full: Seq<Seq<u8>>| #[trigger] rs_encode_outcome(k as nat, (n - k) as nat, full) is Ok
            && fec_consistent(full, sv, k as nat, n as nat) implies
            indexed_subset(pairs_view(originals@), full)
            && indexed_subset(pairs_view(recoveries@), rs_encode_outcome(k as nat, (n - k) as nat, full)->Ok_0)
            && originals@.len() + recoveries@.len() >= k by {
            lemma_consistent_subsets(full, sv, k as nat, n as nat);
        }
    }
    let restored = match rs_decode(k, recovery, &originals, &recoveries) {
        Ok(m) => m,
        Err(e) => return Err(FrameError::FecError(e)),
    };
    let ghost m = restored@.map_values(|v: Vec<u8>| v@);
    proof {
        assert forall|full: Seq<Seq<u8>>| #[trigger] rs_encode_outcome(k as nat, (n - k) as nat, full) is Ok
            && fec_consistent(full, sv, k as nat, n as nat) implies
            restores_missing(sv, m, k as nat) && concat_shards(joined(sv, m, k as nat)) == concat_shards(full) by {
            assert(rs_encode_outcome(k as nat, recovery as nat, full) is Ok);
            assert forall|i: int| 0 <= i < k && !index_given(og, i)
                implies #[trigger] m.contains_key(i as usize) && m[i as usize] == full[i] by {
                assert(restored@.contains_key(i as usize));
            }
            lemma_restored_join(full, sv, m, k as nat, n as nat);
        }
    }
    match join_restored(shards, &restored, k) {
        Some(out) => {
            let mut out = out;
            out.truncate(original_len);
            Ok(out)
        },
        None => Err(FrameError::FecError("data shard not restored".to_owned())),
    }
}

/// How many shards are present.
pub open spec fn present_count(sv: Seq<Option<Seq<u8>>>) -> nat
    decreases sv.len(),
{
    if sv.len() == 0 {
        0
    } else {
        present_count(sv.drop_last()) + if sv.last() is Some { 1nat } else { 0nat }
    }
}

/// `sv` is `shards` with some of them lost.
pub open spec fn masks(sv: Seq<Option<Seq<u8>>>, shards: Seq<Seq<u8>>) -> bool {
    &&& sv.len() == shards.len()
    &&& forall|i: int| 0 <= i < sv.len() && (#[trigger] sv[i]) is Some ==> sv[i]->Some_0 == shards[i]
}

proof fn lemma_present_count(sv: Seq<Option<Seq<u8>>>, k: nat)
    ensures
        present_count(sv) == given_originals(sv, k).len() + given_recoveries(sv, k).len(),
    decreases sv.len(),
{
    if sv.len() > 0 {
        lemma_present_count(sv.drop_last(), k);
    }
}

proof fn lemma_concat_chunks(p: Seq<u8>, ss: nat, c: nat)
    requires
        c * ss <= p.len(),
    ensures
        concat_shards(chunks(p, ss, c)) == p.take((c * ss) as int),
    decreases c,
{
    let s = chunks(p, ss, c);
    if c > 0 {
        let c1 = (c - 1) as nat;
        assert(c1 * ss + ss == c * ss) by (nonlinear_arith)
            requires c1 == c - 1;
        assert(c1 * ss <= c * ss) by (nonlinear_arith)
            requires c1 == c - 1;
        lemma_concat_chunks(p, ss, c1);
        assert(s.drop_last() =~= chunks(p, ss, c1));
        assert(s.last() == p.subrange((c1 * ss) as int, (c1 * ss + ss) as int));
        assert(concat_shards(s) == concat_shards(s.drop_last()) + s.last());
        assert(p.take((c * ss) as int) =~= p.take((c1 * ss) as int) + p.subrange((c1 * ss) as int, (c1 * ss + ss) as int));
    } else {
        assert(c * ss == 0) by (nonlinear_arith)
            requires c == 0;
        assert(p.take(0) =~= Seq::<u8>::empty());
    }
}

/// The data shards, joined in order and cut to the data's length, give back the data.
proof fn lemma_data_shards_join(data: Seq<u8>, k: nat)
    requires
        k >= 1,
    ensures
        truncated(concat_shards(fec_data_shards(data, k)), data.len()) == data,
{
    let ss = shard_size(data.len(), k);
    assert(ss * k >= data.len() && k * ss == ss * k) by (nonlinear_arith)
        requires ss == (data.len() + k - 1) / (k as int), k >= 1;
    let padded = zero_pad(data, ss * k);
    lemma_concat_chunks(padded, ss, k);
    assert(padded.take((k * ss) as int) =~= padded);
    assert(truncated(padded, data.len()) =~= data);
}

/// Decodes shards back to the original data (before zero-padding). `shards`
/// holds the `n` shards of one block in index order, `None` where lost. When all
/// `k` data shards are present they are concatenated directly; otherwise the
/// missing ones are restored by Reed-Solomon decoding. The result is cut to
/// `original_len`. Whenever at least `k` of the `n` shards that `fec_encode`
/// made of some data survive (in place, the rest `None`), decoding gives back
/// exactly that data.
pub fn fec_decode(shards: &[Option<Vec<u8>>], k: usize, n: usize, original_len: usize) -> (r: Result<Vec<u8>, FrameError>)
    requires
        k <= n,
    ensures
        ({
            let spec = fec_decode_spec(opt_view(shards@), k as nat, n as nat, original_len as nat);
            &&& r is Ok <==> spec is Some
            &&& r matches Ok(v) ==> spec == Some(v@)
        }),
        forall|full: Seq<Seq<u8>>|
            #![trigger rs_encode_outcome(k as nat, (n - k) as nat, full)]
            fec_consistent(full, opt_view(shards@), k as nat, n as nat)
            ==> r == Ok::<Vec<u8>, FrameError>(r->Ok_0) && r->Ok_0@ == truncated(concat_shards(full), original_len as nat),
        forall|data: Seq<u8>|
            #![trigger fec_data_shards(data, k as nat)]
            k >= 1 && data.len() == original_len
            && rs_encode_outcome(k as nat, (n - k) as nat, fec_data_shards(data, k as nat)) is Ok
            && masks(opt_view(shards@), fec_data_shards(data, k as nat)
                + rs_encode_outcome(k as nat, (n - k) as nat, fec_data_shards(data, k as nat))->Ok_0)
            && shards@.len() == n && present_count(opt_view(shards@)) >= k
            ==> r == Ok::<Vec<u8>, FrameError>(r->Ok_0) && r->Ok_0@ == data,
{
    let r = fec_decode_shards(shards, k, n, original_len);
    proof {
        assert forall|data: Seq<u8>|
            #![trigger fec_data_shards(data, k as nat)]
            k >= 1 && data.len() == original_len
            && rs_encode_outcome(k as nat, (n - k) as nat, fec_data_shards(data, k as nat)) is Ok
            && masks(opt_view(shards@), fec_data_shards(data, k as nat)
                + rs_encode_outcome(k as nat, (n - k) as nat, fec_data_shards(data, k as nat))->Ok_0)
            && shards@.len() == n && present_count(opt_view(shards@)) >= k
            implies r == Ok::<Vec<u8>, FrameError>(r->Ok_0) && r->Ok_0@ == data by {
            lemma_fec_round_trip(data, k as nat, n as nat, opt_view(shards@));
            let full = fec_data_shards(data, k as nat);
            assert(rs_encode_outcome(k as nat, (n - k) as nat, full) is Ok);
        }
    }
    r
}

/// Erasure recovery: whatever `k` or more of the `n` shards that encoding
/// produced survive, they are consistent with the encoded data shards, and
/// those shards joined and cut to the data's length are the data. With
/// `fec_decode`'s contract this gives: decoding returns exactly the encoded data.
pub proof fn lemma_fec_round_trip(data: Seq<u8>, k: nat, n: nat, sv: Seq<Option<Seq<u8>>>)
    requires
        1 <= k <= n,
        rs_encode_outcome(k, (n - k) as nat, fec_data_shards(data, k)) is Ok,
        masks(sv, fec_data_shards(data, k) + rs_encode_outcome(k, (n - k) as nat, fec_data_shards(data, k))->Ok_0),
        sv.len() == n,
        present_count(sv) >= k,
    ensures
        fec_consistent(fec_data_shards(data, k), sv, k, n),
        truncated(concat_shards(fec_data_shards(data, k)), data.len()) == data,
{
    lemma_present_count(sv, k);
    lemma_data_shards_join(data, k);
}

/// A strictly increasing list of indexes below `k` has index `j` at most
/// `k - len + j`.
proof fn lemma_strict_increasing_upper(s: Seq<(usize, Seq<u8>)>, k: nat)
    requires
        forall|a: int, b: int| 0 <= a < b < s.len() ==> (#[trigger] s[a]).0 < (#[trigger] s[b]).0,
        forall|j: int| 0 <= j < s.len() ==> (#[trigger] s[j]).0 < k,
    ensures
        forall|j: int| 0 <= j < s.len() ==> (#[trigger] s[j]).0 + s.len() - j <= k,
    decreases s.len(),
{
    if s.len() > 0 {
        let t = s.drop_first();
        assert forall|a: int, b: int| 0 <= a < b < t.len() implies (#[trigger] t[a]).0 < (#[trigger] t[b]).0 by {
            assert(t[a] == s[a + 1] && t[b] == s[b + 1]);
        }
        lemma_strict_increasing_upper(t, k);
        assert forall|j: int| 0 <= j < s.len() implies (#[trigger] s[j]).0 + s.len() - j <= k by {
            if j > 0 {
                assert(t[j - 1] == s[j]);
            } else if s.len() > 1 {
                assert(t[0] == s[1]);
                assert(s[0].0 < s[1].0);
            }
        }
    }
}

/// Under consistency, the given lists are shards of the encoding of `full`.
proof fn lemma_consistent_subsets(full: Seq<Seq<u8>>, sv: Seq<Option<Seq<u8>>>, k: nat, n: nat)
    requires
        fec_consistent(full, sv, k, n),
        sv.len() <= usize::MAX,
    ensures
        indexed_subset(given_originals(sv, k), full),
        indexed_subset(given_recoveries(sv, k), rs_encode_outcome(k, (n - k) as nat, full)->Ok_0),
        forall|i: int| 0 <= i < k && i < sv.len() && (#[trigger] sv[i]) is Some ==> sv[i]->Some_0 == full[i],
{
    lemma_given_lists(sv, k);
    let og = given_originals(sv, k);
    let rg = given_recoveries(sv, k);
    let rec = rs_encode_outcome(k, (n - k) as nat, full)->Ok_0;
    assert forall|j: int| 0 <= j < og.len() implies (#[trigger] og[j]).0 < full.len() && og[j].1 == full[og[j].0 as int] by {
        let p = og[j];
        assert(sv[p.0 as int] is Some);
        assert((full + rec)[p.0 as int] == full[p.0 as int]);
    }
    assert forall|j: int| 0 <= j < rg.len() implies (#[trigger] rg[j]).0 < rec.len() && rg[j].1 == rec[rg[j].0 as int] by {
        let p = rg[j];
        assert(sv[p.0 + k] is Some);
        assert((full + rec)[p.0 + k] == rec[p.0 as int]);
    }
    assert forall|a: int, b: int| 0 <= a < b < og.len() implies (#[trigger] og[a]).0 != (#[trigger] og[b]).0 by {}
    assert forall|a: int, b: int| 0 <= a < b < rg.len() implies (#[trigger] rg[a]).0 != (#[trigger] rg[b]).0 by {}
    assert forall|i: int| 0 <= i < k && i < sv.len() && (#[trigger] sv[i]) is Some implies sv[i]->Some_0 == full[i] by {
        assert((full + rec)[i] == full[i]);
    }
}

/// Concatenations of pointwise equal shard lists are equal.
proof fn lemma_concat_ext(a: Seq<Seq<u8>>, b: Seq<Seq<u8>>)
    requires
        a.len() == b.len(),
        forall|i: int| 0 <= i < a.len() ==> a[i] == b[i],
    ensures
        concat_shards(a) == concat_shards(b),
{
    assert(a =~= b);
}

} // verus!


