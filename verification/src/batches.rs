use vstd::prelude::*;

verus! {

/// A run of instances drawn with one atlas: instances `start..end`.
#[derive(PartialEq, Eq, Structural, Clone, Copy, Debug)]
pub struct DrawRange {
    pub atlas: u32,
    pub start: u32,
    pub end: u32,
}

/// Quad `a` is drawn before quad `b`: lower atlas first, then in the order
/// the quads were given.
pub open spec fn draws_before(ids: Seq<u32>, a: int, b: int) -> bool {
    ids[a] < ids[b] || (ids[a] == ids[b] && a < b)
}

pub open spec fn sorted_by_atlas(ids: Seq<u32>, order: Seq<usize>) -> bool {
    forall|k1: int, k2: int|
        0 <= k1 < k2 < order.len() ==> draws_before(ids, #[trigger] order[k1] as int, #[trigger] order[k2] as int)
}

/// The quads of bucket `b`: in increasing order, exactly those among the
/// first `upto` quads whose atlas is `b`.
pub open spec fn is_bucket(ids: Seq<u32>, bucket: Seq<usize>, b: int, upto: int) -> bool {
    &&& forall|k: int| 0 <= k < bucket.len() ==> #[trigger] bucket[k] < upto && ids[bucket[k] as int] == b
    &&& forall|k1: int, k2: int| 0 <= k1 < k2 < bucket.len() ==> #[trigger] bucket[k1] < #[trigger] bucket[k2]
    &&& forall|j: int| 0 <= j < upto && ids[j] == b ==> #[trigger] bucket.contains(j as usize)
}

pub open spec fn lens_sum(bs: Seq<Vec<usize>>) -> int
    decreases bs.len(),
{
    if bs.len() == 0 {
        0
    } else {
        lens_sum(bs.drop_last()) + bs.last().len()
    }
}

proof fn lemma_lens_sum_update(bs: Seq<Vec<usize>>, b: int, v: Vec<usize>)
    requires
        0 <= b < bs.len(),
    ensures
        lens_sum(bs.update(b, v)) == lens_sum(bs) - bs[b].len() + v.len(),
    decreases bs.len(),
{
    if b == bs.len() - 1 {
        assert(bs.update(b, v).drop_last() =~= bs.drop_last());
    } else {
        assert(bs.update(b, v).drop_last() =~= bs.drop_last().update(b, v));
        lemma_lens_sum_update(bs.drop_last(), b, v);
    }
}

proof fn lemma_lens_sum_take(bs: Seq<Vec<usize>>, b: int)
    requires
        0 <= b < bs.len(),
    ensures
        lens_sum(bs.take(b + 1)) == lens_sum(bs.take(b)) + bs[b].len(),
{
    assert(bs.take(b + 1).drop_last() =~= bs.take(b));
}

/// The order in which to upload the quads so that quads sharing an atlas are
/// contiguous, atlases in increasing order and quads of one atlas in the
/// order given; and, per atlas used, the range of the upload it covers.
#[verifier::rlimit(60)]
pub fn bucket_by_atlas(ids: &Vec<u32>) -> (res: (Vec<usize>, Vec<DrawRange>))
    requires
        ids.len() <= u32::MAX,
    ensures
        res.0.len() == ids.len(),
        forall|k: int| 0 <= k < res.0.len() ==> #[trigger] res.0@[k] < ids.len(),
        forall|i: int| 0 <= i < ids.len() ==> #[trigger] res.0@.contains(i as usize),
        sorted_by_atlas(ids@, res.0@),
        res.1.len() == 0 <==> ids.len() == 0,
        res.1.len() > 0 ==> res.1@[0].start == 0 && res.1@.last().end == ids.len(),
        forall|r: int| 0 <= r < res.1.len() ==> (#[trigger] res.1@[r]).start < res.1@[r].end,
        forall|r: int| 0 <= r < res.1.len() - 1 ==> (#[trigger] res.1@[r]).end == res.1@[r + 1].start,
        forall|r1: int, r2: int| 0 <= r1 < r2 < res.1.len() ==> (#[trigger] res.1@[r1]).atlas < (#[trigger] res.1@[r2]).atlas,
        forall|r: int, k: int|
            0 <= r < res.1.len() && res.1@[r].start <= k < res.1@[r].end ==> ids@[#[trigger] res.0@[k] as int]
                == (#[trigger] res.1@[r]).atlas,
{
    let n = ids.len();
    let mut buckets: Vec<Vec<usize>> = Vec::new();
    let mut i: usize = 0;
    while i < n
        invariant
            n == ids.len(),
            i <= n,
            forall|j: int| 0 <= j < i ==> ids@[j] < buckets.len(),
            buckets.len() <= u32::MAX as int + 1,
            forall|b: int| 0 <= b < buckets.len() ==> is_bucket(ids@, #[trigger] buckets@[b]@, b, i as int),
            lens_sum(buckets@) == i,
        decreases n - i,
    {
        let id = ids[i];
        if buckets.len() <= id as usize {
            while buckets.len() <= id as usize
                invariant
                    n == ids.len(),
                    i < n,
                    buckets.len() <= id as int + 1,
                    forall|j: int| 0 <= j < i ==> ids@[j] < buckets.len(),
                    forall|b: int| 0 <= b < buckets.len() ==> is_bucket(ids@, #[trigger] buckets@[b]@, b, i as int),
                    lens_sum(buckets@) == i,
                decreases id as int + 1 - buckets.len(),
            {
                let ghost before = buckets@;
                buckets.push(Vec::new());
                proof {
                    assert(buckets@.drop_last() =~= before);
                    let nb = buckets.len() - 1;
                    assert forall|j: int| 0 <= j < i && ids@[j] == nb implies #[trigger] buckets@[nb]@.contains(j as usize) by {
                        assert(ids@[j] < before.len());
                    }
                }
            }
        }
        let ghost before = buckets@;
        buckets[id as usize].push(i);
        proof {
            lemma_lens_sum_update(before, id as int, buckets@[id as int]);
            assert forall|b: int| 0 <= b < buckets.len() implies is_bucket(ids@, #[trigger] buckets@[b]@, b, i + 1) by {
                let bk = buckets@[b]@;
                assert(is_bucket(ids@, before[b]@, b, i as int));
                if b == id {
                    assert(bk == before[b]@.push(i));
                    assert forall|j: int| 0 <= j < i + 1 && ids@[j] == b implies #[trigger] bk.contains(j as usize) by {
                        if j < i {
                            assert(before[b]@.contains(j as usize));
                            let k = choose|k: int| 0 <= k < before[b]@.len() && before[b]@[k] == j as usize;
                            assert(bk[k] == j as usize);
                        } else {
                            assert(bk[bk.len() - 1] == i);
                        }
                    }
                } else {
                    assert(bk == before[b]@);
                }
            }
        }
        i = i + 1;
    }
    // one contiguous upload, one range per atlas that is used
    let mut flat: Vec<usize> = Vec::new();
    let mut ranges: Vec<DrawRange> = Vec::new();
    let nb = buckets.len();
    let mut b: usize = 0;
    while b < nb
        invariant
            n == ids.len(),
            n <= u32::MAX,
            nb == buckets.len(),
            nb <= u32::MAX as int + 1,
            forall|j: int| 0 <= j < n ==> ids@[j] < nb,
            forall|bb: int| 0 <= bb < nb ==> is_bucket(ids@, #[trigger] buckets@[bb]@, bb, n as int),
            lens_sum(buckets@) == n,
            b <= nb,
            flat.len() == lens_sum(buckets@.take(b as int)),
            upload_inv(ids@, n as int, b as int, flat@, ranges@),
        decreases nb - b,
    {
        proof {
            lemma_lens_sum_take(buckets@, b as int);
            lemma_lens_sum_bounded(buckets@, b as int + 1);
        }
        let bucket = &buckets[b];
        let ghost before = flat@;
        let ghost old_ranges = ranges@;
        if bucket.len() > 0 {
            let start = flat.len();
            let mut k: usize = 0;
            while k < bucket.len()
                invariant
                    k <= bucket.len(),
                    start == before.len(),
                    flat@ == before + bucket@.take(k as int),
                decreases bucket.len() - k,
            {
                flat.push(bucket[k]);
                proof {
                    assert(bucket@.take(k + 1) =~= bucket@.take(k as int).push(bucket@[k as int]));
                }
                k = k + 1;
            }
            assert(bucket@.take(bucket.len() as int) =~= bucket@);
            let end = flat.len();
            ranges.push(DrawRange { atlas: b as u32, start: start as u32, end: end as u32 });
        }
        proof {
            lemma_append_bucket(ids@, n as int, b as int, bucket@, before, old_ranges, flat@, ranges@);
        }
        b = b + 1;
    }
    proof {
        assert(buckets@.take(nb as int) =~= buckets@);
        assert forall|i: int| 0 <= i < ids.len() implies #[trigger] flat@.contains(i as usize) by {
            assert(ids@[i] < nb);
        }
    }
    (flat, ranges)
}

/// The upload so far: the quads of atlases below `b`, in drawing order,
/// split into one range per atlas.
pub open spec fn upload_inv(ids: Seq<u32>, n: int, b: int, flat: Seq<usize>, ranges: Seq<DrawRange>) -> bool {
    &&& forall|k: int| 0 <= k < flat.len() ==> #[trigger] flat[k] < n && ids[flat[k] as int] < b
    &&& forall|j: int| 0 <= j < n && ids[j] < b ==> #[trigger] flat.contains(j as usize)
    &&& sorted_by_atlas(ids, flat)
    &&& (ranges.len() == 0 <==> flat.len() == 0)
    &&& ranges.len() > 0 ==> ranges[0].start == 0 && ranges.last().end == flat.len()
    &&& forall|r: int| 0 <= r < ranges.len() ==> (#[trigger] ranges[r]).start < ranges[r].end <= flat.len() && ranges[r].atlas < b
    &&& forall|r: int| 0 <= r < ranges.len() - 1 ==> (#[trigger] ranges[r]).end == ranges[r + 1].start
    &&& forall|r1: int, r2: int| 0 <= r1 < r2 < ranges.len() ==> (#[trigger] ranges[r1]).atlas < (#[trigger] ranges[r2]).atlas
    &&& forall|r: int, k: int|
        0 <= r < ranges.len() && ranges[r].start <= k < ranges[r].end ==> ids[#[trigger] flat[k] as int]
            == (#[trigger] ranges[r]).atlas
}

proof fn lemma_append_bucket(
    ids: Seq<u32>,
    n: int,
    b: int,
    bucket: Seq<usize>,
    before: Seq<usize>,
    old_ranges: Seq<DrawRange>,
    flat: Seq<usize>,
    ranges: Seq<DrawRange>,
)
    requires
        n == ids.len(),
        n <= u32::MAX,
        0 <= b <= u32::MAX,
        is_bucket(ids, bucket, b, n),
        upload_inv(ids, n, b, before, old_ranges),
        flat == before + bucket,
        flat.len() <= u32::MAX,
        bucket.len() == 0 ==> ranges == old_ranges,
        bucket.len() > 0 ==> ranges == old_ranges.push(
            DrawRange { atlas: b as u32, start: before.len() as u32, end: flat.len() as u32 },
        ),
    ensures
        upload_inv(ids, n, b + 1, flat, ranges),
{
    assert forall|k: int| 0 <= k < flat.len() implies #[trigger] flat[k] < n && ids[flat[k] as int] < b + 1 by {
        if k >= before.len() {
            assert(flat[k] == bucket[k - before.len()]);
        } else {
            assert(flat[k] == before[k]);
        }
    }
    assert forall|k1: int, k2: int| 0 <= k1 < k2 < flat.len() implies draws_before(ids, #[trigger] flat[k1] as int, #[trigger] flat[k2] as int) by {
        if k2 < before.len() {
            assert(flat[k1] == before[k1] && flat[k2] == before[k2]);
        } else if k1 < before.len() {
            assert(flat[k1] == before[k1]);
            assert(flat[k2] == bucket[k2 - before.len()]);
        } else {
            assert(flat[k1] == bucket[k1 - before.len()]);
            assert(flat[k2] == bucket[k2 - before.len()]);
        }
    }
    assert forall|j: int| 0 <= j < n && ids[j] < b + 1 implies #[trigger] flat.contains(j as usize) by {
        if ids[j] < b {
            assert(before.contains(j as usize));
            let k = choose|k: int| 0 <= k < before.len() && before[k] == j as usize;
            assert(flat[k] == j as usize);
        } else {
            assert(bucket.contains(j as usize));
            let k = choose|k: int| 0 <= k < bucket.len() && bucket[k] == j as usize;
            assert(flat[before.len() + k] == j as usize);
        }
    }
    if bucket.len() > 0 {
        assert forall|r: int, k: int| 0 <= r < ranges.len() && ranges[r].start <= k < ranges[r].end implies ids[#[trigger] flat[k] as int]
            == (#[trigger] ranges[r]).atlas by {
            if r < old_ranges.len() {
                assert(ranges[r] == old_ranges[r]);
                assert(flat[k] == before[k]);
            } else {
                assert(flat[k] == bucket[k - before.len()]);
            }
        }
        assert forall|r: int| 0 <= r < ranges.len() implies (#[trigger] ranges[r]).start < ranges[r].end <= flat.len() && ranges[r].atlas < b + 1 by {
            if r < old_ranges.len() {
                assert(ranges[r] == old_ranges[r]);
            }
        }
        assert forall|r: int| 0 <= r < ranges.len() - 1 implies (#[trigger] ranges[r]).end == ranges[r + 1].start by {
            assert(ranges[r] == old_ranges[r]);
            if r + 1 < old_ranges.len() {
                assert(ranges[r + 1] == old_ranges[r + 1]);
            }
        }
        assert forall|r1: int, r2: int| 0 <= r1 < r2 < ranges.len() implies (#[trigger] ranges[r1]).atlas < (#[trigger] ranges[r2]).atlas by {
            assert(ranges[r1] == old_ranges[r1]);
            if r2 < old_ranges.len() {
                assert(ranges[r2] == old_ranges[r2]);
            }
        }
    } else {
        assert(flat =~= before);
    }
}

proof fn lemma_lens_sum_bounded(bs: Seq<Vec<usize>>, b: int)
    requires
        0 <= b <= bs.len(),
    ensures
        0 <= lens_sum(bs.take(b)) <= lens_sum(bs),
    decreases bs.len(),
{
    if b == bs.len() {
        assert(bs.take(b) =~= bs);
        lemma_lens_sum_nonneg(bs);
    } else {
        assert(bs.drop_last().take(b) =~= bs.take(b));
        lemma_lens_sum_bounded(bs.drop_last(), b);
    }
}

proof fn lemma_lens_sum_nonneg(bs: Seq<Vec<usize>>)
    ensures
        0 <= lens_sum(bs),
    decreases bs.len(),
{
    if bs.len() > 0 {
        lemma_lens_sum_nonneg(bs.drop_last());
    }
}

} // verus!
