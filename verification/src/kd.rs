//! Building the tree of a partition.
use crate::index::{KdNode, QVec, DIM, STORE_DIM};
use vstd::prelude::*;

verus! {

/// The most records that a leaf holds.
pub const LEAF_SIZE: usize = 64;

/// The most records that are looked at to choose the dimension of a split.
pub const SPLIT_SAMPLE: usize = 512;

/// A labelled vector on its way into the index.
#[derive(Clone, Copy)]
pub struct BuildRecord {
    pub qvec: QVec,
    pub label: u8,
    pub key: u8,
}

impl BuildRecord {
    pub open spec fn at(self, d: int) -> int {
        self.qvec.at(d)
    }
}

/// `lo` and `hi` are the corners of the smallest box around the records; both are zero
/// where there are none.
pub open spec fn tight_box(recs: Seq<BuildRecord>, lo: QVec, hi: QVec) -> bool {
    forall|d: int|
        0 <= d < 16 ==> #[trigger] tight_in(recs, d, lo.at(d), hi.at(d))
}

/// `lo` and `hi` are the least and the greatest coordinate of the records in dimension `d`.
pub open spec fn tight_in(recs: Seq<BuildRecord>, d: int, lo: int, hi: int) -> bool {
    if recs.len() == 0 {
        lo == 0 && hi == 0
    } else {
        &&& forall|i: int| 0 <= i < recs.len() ==> lo <= (#[trigger] recs[i]).at(d) <= hi
        &&& exists|i: int| 0 <= i < recs.len() && (#[trigger] recs[i]).at(d) == lo
        &&& exists|i: int| 0 <= i < recs.len() && (#[trigger] recs[i]).at(d) == hi
    }
}

/// The box of what has been seen: nothing seen leaves the extremes.
spec fn growing_box(recs: Seq<BuildRecord>, lo: QVec, hi: QVec) -> bool {
    if recs.len() == 0 {
        forall|d: int|
            0 <= d < 16 ==> lo.at(d) == i16::MAX && #[trigger] hi.at(d) == i16::MIN
    } else {
        tight_box(recs, lo, hi)
    }
}

proof fn lemma_grows(recs: Seq<BuildRecord>, r: BuildRecord, d: int, lo: int, hi: int)
    requires
        recs.len() == 0 ==> lo == i16::MAX && hi == i16::MIN,
        recs.len() > 0 ==> tight_in(recs, d, lo, hi),
    ensures
        tight_in(
            recs.push(r),
            d,
            if r.at(d) < lo { r.at(d) } else { lo },
            if r.at(d) > hi { r.at(d) } else { hi },
        ),
{
    let all = recs.push(r);
    let n = recs.len() as int;
    assert(all[n] == r);
    assert forall|i: int| 0 <= i < n implies all[i] == recs[i] by {}
    if recs.len() > 0 {
        let a = choose|i: int| 0 <= i < recs.len() && (#[trigger] recs[i]).at(d) == lo;
        let b = choose|i: int| 0 <= i < recs.len() && (#[trigger] recs[i]).at(d) == hi;
        assert(all[a].at(d) == lo);
        assert(all[b].at(d) == hi);
    }
}

/// The corners of the smallest box around the records.
pub fn bbox_records(records: &[BuildRecord]) -> (r: (QVec, QVec))
    ensures
        tight_box(records@, r.0, r.1),
{
    if records.len() == 0 {
        return (QVec::zero(), QVec::zero());
    }
    let mut min: QVec = QVec([i16::MAX; STORE_DIM]);
    let mut max: QVec = QVec([i16::MIN; STORE_DIM]);
    let mut i: usize = 0;
    while i < records.len()
        invariant
            i <= records.len(),
            growing_box(records@.take(i as int), min, max),
        decreases records.len() - i,
    {
        let r: &BuildRecord = &records[i];
        let ghost before = records@.take(i as int);
        let ghost after = records@.take(i + 1);
        assert(after =~= before.push(*r));
        let ghost min0 = min;
        let ghost max0 = max;
        let mut d: usize = 0;
        while d < STORE_DIM
            invariant
                d <= 16,
                after == before.push(*r),
                growing_box(before, min0, max0),
                forall|e: int| d <= e < 16 ==> min.at(e) == min0.at(e),
                forall|e: int| d <= e < 16 ==> max.at(e) == max0.at(e),
                forall|e: int| 0 <= e < d ==> #[trigger] tight_in(after, e, min.at(e), max.at(e)),
            decreases 16 - d,
        {
            proof {
                if before.len() > 0 {
                    assert(tight_in(before, d as int, min0.at(d as int), max0.at(d as int)));
                }
                lemma_grows(before, *r, d as int, min0.at(d as int), max0.at(d as int));
            }
            let ghost min1 = min;
            let ghost max1 = max;
            let v: i16 = r.qvec.0[d];
            if v < min.0[d] {
                min.0[d] = v;
            }
            if v > max.0[d] {
                max.0[d] = v;
            }
            assert forall|e: int| 0 <= e <= d implies #[trigger] tight_in(
                after,
                e,
                min.at(e),
                max.at(e),
            ) by {
                if e < d {
                    assert(tight_in(after, e, min1.at(e), max1.at(e)));
                }
            }
            d = d + 1;
        }
        i = i + 1;
    }
    assert(records@.take(records@.len() as int) =~= records@);
    (min, max)
}

/// The width of a box in dimension `d`.
pub open spec fn width(lo: QVec, hi: QVec, d: int) -> int {
    hi.at(d) - lo.at(d)
}

/// `d` is the first of the widest among the first `n` dimensions.
pub open spec fn first_widest(lo: QVec, hi: QVec, n: int, d: int) -> bool {
    &&& 0 <= d < n
    &&& forall|e: int| 0 <= e < n ==> #[trigger] width(lo, hi, e) <= width(lo, hi, d)
    &&& forall|e: int| 0 <= e < d ==> #[trigger] width(lo, hi, e) < width(lo, hi, d)
}

/// The first of the widest dimensions of a box.
pub fn widest_dim(bbox_min: &QVec, bbox_max: &QVec) -> (r: usize)
    ensures
        first_widest(*bbox_min, *bbox_max, 14, r as int),
{
    let mut best_dim: usize = 0;
    let mut best_width: i32 = i32::MIN;
    let mut d: usize = 0;
    while d < DIM
        invariant
            d <= 14,
            d == 0 ==> best_width == i32::MIN,
            d > 0 ==> {
                &&& first_widest(*bbox_min, *bbox_max, d as int, best_dim as int)
                &&& best_width == width(*bbox_min, *bbox_max, best_dim as int)
            },
        decreases 14 - d,
    {
        let w: i32 = bbox_max.0[d] as i32 - bbox_min.0[d] as i32;
        assert(w == width(*bbox_min, *bbox_max, d as int));
        if w > best_width {
            best_width = w;
            best_dim = d;
        }
        d = d + 1;
    }
    best_dim
}

/// The record that sample `s` of `samples` looks at.
pub open spec fn sampled(recs: Seq<BuildRecord>, samples: int, s: int) -> BuildRecord {
    recs[s * recs.len() as int / samples]
}

/// The sum of the first `n` samples in dimension `d`.
pub open spec fn sample_sum(recs: Seq<BuildRecord>, samples: int, d: int, n: nat) -> int
    decreases n,
{
    if n == 0 {
        0
    } else {
        sample_sum(recs, samples, d, (n - 1) as nat) + sampled(recs, samples, n - 1).at(d)
    }
}

/// The sum of the squares of the first `n` samples in dimension `d`.
pub open spec fn sample_sum_sq(recs: Seq<BuildRecord>, samples: int, d: int, n: nat) -> int
    decreases n,
{
    if n == 0 {
        0
    } else {
        sample_sum_sq(recs, samples, d, (n - 1) as nat) + sampled(recs, samples, n - 1).at(d)
            * sampled(recs, samples, n - 1).at(d)
    }
}

/// The number of samples that a split looks at.
pub open spec fn sample_count(len: int) -> int {
    if len < SPLIT_SAMPLE {
        len
    } else {
        SPLIT_SAMPLE as int
    }
}

/// The spread of the samples in dimension `d`: their variance times the square of their
/// number.
pub open spec fn spread(recs: Seq<BuildRecord>, d: int) -> int {
    let n = sample_count(recs.len() as int);
    n * sample_sum_sq(recs, n, d, n as nat) - sample_sum(recs, n, d, n as nat) * sample_sum(
        recs,
        n,
        d,
        n as nat,
    )
}

/// Dimension `d` is a better split than `e`: a larger spread or, at the same spread, a
/// wider box.
pub open spec fn better_split(
    recs: Seq<BuildRecord>,
    lo: QVec,
    hi: QVec,
    d: int,
    e: int,
) -> bool {
    ||| spread(recs, d) > spread(recs, e)
    ||| spread(recs, d) == spread(recs, e) && width(lo, hi, d) > width(lo, hi, e)
}

/// `d` is the first of the best splits among the first `n` dimensions.
pub open spec fn first_best_split(
    recs: Seq<BuildRecord>,
    lo: QVec,
    hi: QVec,
    n: int,
    d: int,
) -> bool {
    &&& 0 <= d < n
    &&& forall|e: int| 0 <= e < n ==> !#[trigger] better_split(recs, lo, hi, e, d)
    &&& forall|e: int| 0 <= e < d ==> #[trigger] better_split(recs, lo, hi, d, e)
}

/// The dimension that a node is split in: the best split, or the widest dimension where
/// there are too few samples or none of them spreads.
pub open spec fn split_dim(recs: Seq<BuildRecord>, lo: QVec, hi: QVec, d: int) -> bool {
    if recs.len() >= 2 && exists|e: int| 0 <= e < 14 && #[trigger] spread(recs, e) > 0 {
        first_best_split(recs, lo, hi, 14, d)
    } else {
        first_widest(lo, hi, 14, d)
    }
}

proof fn lemma_sample_index(s: int, len: int, samples: int)
    requires
        0 <= s < samples,
        0 < samples,
        0 < len,
    ensures
        0 <= s * len,
        0 <= s * len / samples < len,
{
    assert(0 <= s * len < samples * len) by (nonlinear_arith)
        requires
            0 <= s < samples,
            0 < len,
    ;
    assert(0 <= (s * len) / samples < len) by (nonlinear_arith)
        requires
            0 <= s * len < samples * len,
            0 < samples,
    ;
}

proof fn lemma_square_bound(x: int, m: int)
    by (nonlinear_arith)
    requires
        -m <= x <= m,
    ensures
        0 <= x * x <= m * m,
{
}

proof fn lemma_scaled_bound(n: int, x: int, n_max: int, x_max: int)
    by (nonlinear_arith)
    requires
        0 <= n <= n_max,
        0 <= x <= x_max,
    ensures
        0 <= n * x <= n_max * x_max,
{
}

/// The dimension in which to split the records.
pub fn choose_split_dim(records: &[BuildRecord], bbox_min: &QVec, bbox_max: &QVec) -> (r: usize)
    requires
        records@.len() * (SPLIT_SAMPLE - 1) <= usize::MAX,
    ensures
        split_dim(records@, *bbox_min, *bbox_max, r as int),
{
    let samples: usize = if records.len() < SPLIT_SAMPLE { records.len() } else { SPLIT_SAMPLE };
    if samples < 2 {
        return widest_dim(bbox_min, bbox_max);
    }
    let ghost recs = records@;
    let mut sums: [i64; DIM] = [0i64; DIM];
    let mut sums_sq: [i64; DIM] = [0i64; DIM];
    let mut s: usize = 0;
    while s < samples
        invariant
            s <= samples <= 512,
            2 <= samples <= recs.len(),
            recs == records@,
            recs.len() * (SPLIT_SAMPLE - 1) <= usize::MAX,
            forall|e: int|
                0 <= e < 14 ==> #[trigger] sums@[e] == sample_sum(
                    recs,
                    samples as int,
                    e,
                    s as nat,
                ),
            forall|e: int|
                0 <= e < 14 ==> #[trigger] sums_sq@[e] == sample_sum_sq(
                    recs,
                    samples as int,
                    e,
                    s as nat,
                ),
            forall|e: int| 0 <= e < 14 ==> -0x8000 * s <= #[trigger] sums@[e] <= 0x8000 * s,
            forall|e: int| 0 <= e < 14 ==> 0 <= #[trigger] sums_sq@[e] <= 0x4000_0000 * s,
        decreases samples - s,
    {
        proof {
            lemma_sample_index(s as int, recs.len() as int, samples as int);
            lemma_scaled_bound(s as int, recs.len() as int, 511, recs.len() as int);
            assert(511 * recs.len() == recs.len() * 511) by (nonlinear_arith);
        }
        let idx: usize = s * records.len() / samples;
        let qvec: &QVec = &records[idx].qvec;
        assert(records@[idx as int] == sampled(recs, samples as int, s as int));
        let ghost sums0 = sums@;
        let ghost sums_sq0 = sums_sq@;
        let mut d: usize = 0;
        while d < DIM
            invariant
                d <= 14,
                s < samples <= 512,
                *qvec == sampled(recs, samples as int, s as int).qvec,
                forall|e: int|
                    0 <= e < 14 ==> #[trigger] sums0[e] == sample_sum(
                        recs,
                        samples as int,
                        e,
                        s as nat,
                    ),
                forall|e: int|
                    0 <= e < 14 ==> #[trigger] sums_sq0[e] == sample_sum_sq(
                        recs,
                        samples as int,
                        e,
                        s as nat,
                    ),
                forall|e: int| 0 <= e < 14 ==> -0x8000 * s <= #[trigger] sums0[e] <= 0x8000 * s,
                forall|e: int| 0 <= e < 14 ==> 0 <= #[trigger] sums_sq0[e] <= 0x4000_0000 * s,
                forall|e: int| d <= e < 14 ==> #[trigger] sums@[e] == sums0[e],
                forall|e: int| d <= e < 14 ==> #[trigger] sums_sq@[e] == sums_sq0[e],
                forall|e: int|
                    0 <= e < d ==> #[trigger] sums@[e] == sample_sum(
                        recs,
                        samples as int,
                        e,
                        (s + 1) as nat,
                    ),
                forall|e: int|
                    0 <= e < d ==> #[trigger] sums_sq@[e] == sample_sum_sq(
                        recs,
                        samples as int,
                        e,
                        (s + 1) as nat,
                    ),
                forall|e: int|
                    0 <= e < d ==> -0x8000 * (s + 1) <= #[trigger] sums@[e] <= 0x8000 * (s + 1),
                forall|e: int|
                    0 <= e < d ==> 0 <= #[trigger] sums_sq@[e] <= 0x4000_0000 * (s + 1),
            decreases 14 - d,
        {
            let v: i64 = qvec.0[d] as i64;
            assert(v == qvec.at(d as int));
            proof {
                lemma_square_bound(v as int, 0x8000);
                assert(sums@[d as int] == sums0[d as int]);
                assert(sums_sq@[d as int] == sums_sq0[d as int]);
            }
            sums[d] = sums[d] + v;
            sums_sq[d] = sums_sq[d] + v * v;
            d = d + 1;
        }
        s = s + 1;
    }
    let n: i64 = samples as i64;
    let mut best_dim: usize = 0;
    let mut best_score: i64 = i64::MIN;
    let mut best_width: i32 = i32::MIN;
    let mut d: usize = 0;
    while d < DIM
        invariant
            d <= 14,
            2 <= samples <= 512,
            n == samples,
            samples == sample_count(recs.len() as int),
            forall|e: int|
                0 <= e < 14 ==> #[trigger] sums@[e] == sample_sum(
                    recs,
                    samples as int,
                    e,
                    samples as nat,
                ),
            forall|e: int|
                0 <= e < 14 ==> #[trigger] sums_sq@[e] == sample_sum_sq(
                    recs,
                    samples as int,
                    e,
                    samples as nat,
                ),
            forall|e: int| 0 <= e < 14 ==> -0x100_0000 <= #[trigger] sums@[e] <= 0x100_0000,
            forall|e: int| 0 <= e < 14 ==> 0 <= #[trigger] sums_sq@[e] <= 0x80_0000_0000,
            d == 0 ==> best_score == i64::MIN && best_width == i32::MIN,
            d > 0 ==> {
                &&& first_best_split(recs, *bbox_min, *bbox_max, d as int, best_dim as int)
                &&& best_score == spread(recs, best_dim as int)
                &&& best_width == width(*bbox_min, *bbox_max, best_dim as int)
            },
        decreases 14 - d,
    {
        proof {
            assert(sums_sq@[d as int] <= 0x80_0000_0000);
            assert(sums@[d as int] <= 0x100_0000);
            lemma_scaled_bound(n as int, sums_sq@[d as int] as int, 512, 0x80_0000_0000);
            lemma_square_bound(sums@[d as int] as int, 0x100_0000);
        }
        let score: i64 = n * sums_sq[d] - sums[d] * sums[d];
        let w: i32 = bbox_max.0[d] as i32 - bbox_min.0[d] as i32;
        assert(score == spread(recs, d as int));
        assert(w == width(*bbox_min, *bbox_max, d as int));
        let ghost prev = best_dim as int;
        if score > best_score || (score == best_score && w > best_width) {
            best_score = score;
            best_width = w;
            best_dim = d;
            proof {
                if d > 0 {
                    assert(better_split(recs, *bbox_min, *bbox_max, d as int, prev));
                    assert forall|e: int| 0 <= e < d implies #[trigger] better_split(
                        recs,
                        *bbox_min,
                        *bbox_max,
                        d as int,
                        e,
                    ) by {
                        assert(!better_split(recs, *bbox_min, *bbox_max, e, prev));
                    }
                    assert forall|e: int| 0 <= e < d + 1 implies !#[trigger] better_split(
                        recs,
                        *bbox_min,
                        *bbox_max,
                        e,
                        d as int,
                    ) by {
                        if e < d {
                            assert(better_split(recs, *bbox_min, *bbox_max, d as int, e));
                        }
                    }
                }
            }
        } else {
            assert(!better_split(recs, *bbox_min, *bbox_max, d as int, prev));
        }
        d = d + 1;
    }
    proof {
        assert forall|e: int| 0 <= e < 14 implies #[trigger] spread(recs, e) <= best_score by {
            assert(!better_split(recs, *bbox_min, *bbox_max, e, best_dim as int));
        }
    }
    if best_score <= 0 {
        widest_dim(bbox_min, bbox_max)
    } else {
        best_dim
    }
}

/// The number of nodes in the tree over `len` records.
pub open spec fn tree_nodes(len: int) -> int
    decreases len,
{
    if len <= LEAF_SIZE {
        1
    } else {
        1 + tree_nodes(len / 2) + tree_nodes(len - len / 2)
    }
}

/// In dimension `d` nothing on the left lies beyond anything on the right.
pub open spec fn divided(left: Seq<BuildRecord>, right: Seq<BuildRecord>, d: int) -> bool {
    forall|i: int, j: int|
        0 <= i < left.len() && 0 <= j < right.len() ==> (#[trigger] left[i]).at(d) <= (
        #[trigger] right[j]).at(d)
}

/// The records are halved in dimension `d`, which was chosen when they stood in the order
/// `p`, in the box `lo ..= hi`.
pub open spec fn halved_in(
    p: Seq<BuildRecord>,
    recs: Seq<BuildRecord>,
    lo: QVec,
    hi: QVec,
    d: int,
) -> bool {
    let mid = recs.len() as int / 2;
    &&& p.to_multiset() == recs.to_multiset()
    &&& split_dim(p, lo, hi, d)
    &&& divided(recs.take(mid), recs.skip(mid), d)
}

/// The records are halved in the dimension that was chosen when they stood in the order `p`.
pub open spec fn halved_from(
    p: Seq<BuildRecord>,
    recs: Seq<BuildRecord>,
    lo: QVec,
    hi: QVec,
) -> bool {
    exists|d: int| #[trigger] halved_in(p, recs, lo, hi, d)
}

/// The records are halved in the dimension that was chosen for them. The choice samples the
/// records in the order that they stood in, which halving leaves open.
pub open spec fn halved(recs: Seq<BuildRecord>, lo: QVec, hi: QVec) -> bool {
    exists|p: Seq<BuildRecord>| #[trigger] halved_from(p, recs, lo, hi)
}

/// Node `i` is the root of a tree over the records, which stand in the index from `g` on:
/// every node has the tight box of its records; up to `LEAF_SIZE` of them make a leaf;
/// more are halved in the chosen dimension, the left half's tree follows the node, and the
/// right half's follows that.
pub open spec fn kd_tree(nodes: Seq<KdNode>, i: int, recs: Seq<BuildRecord>, g: int) -> bool
    decreases recs.len(),
{
    let node = nodes[i];
    let mid = recs.len() as int / 2;
    &&& 0 <= i < nodes.len()
    &&& tight_box(recs, node.bbox_min, node.bbox_max)
    &&& if recs.len() <= LEAF_SIZE {
        node.left == -1 && node.right == -1 && node.start == g && node.count == recs.len()
    } else {
        &&& node.left == i + 1
        &&& node.right == i + 1 + tree_nodes(mid)
        &&& node.start == 0
        &&& node.count == 0
        &&& halved(recs, node.bbox_min, node.bbox_max)
        &&& kd_tree(nodes, i + 1, recs.take(mid), g)
        &&& kd_tree(nodes, i + 1 + tree_nodes(mid), recs.skip(mid), g + mid)
    }
}

pub proof fn lemma_tree_nodes_positive(len: int)
    ensures
        tree_nodes(len) >= 1,
    decreases len,
{
    if len > LEAF_SIZE {
        lemma_tree_nodes_positive(len / 2);
        lemma_tree_nodes_positive(len - len / 2);
    }
}

/// A tree has few nodes: its leaves are at least half full.
pub proof fn lemma_tree_nodes_bound(len: int)
    requires
        len >= 0,
    ensures
        tree_nodes(len) <= len / 16 + 1,
        len >= 32 ==> tree_nodes(len) + 1 <= 2 * (len / 32),
    decreases len,
{
    if len > LEAF_SIZE {
        let left = len / 2;
        let right = len - left;
        lemma_tree_nodes_bound(left);
        lemma_tree_nodes_bound(right);
        assert(left >= 32 && right >= 32);
        lemma_quotients(left, right);
        assert(tree_nodes(len) == 1 + tree_nodes(left) + tree_nodes(right));
    } else {
        assert(tree_nodes(len) == 1);
    }
}

/// What two numbers are worth in units does not exceed what their sum is worth.
proof fn lemma_quotients(a: int, b: int)
    requires
        0 <= a,
        0 <= b,
    ensures
        a / 32 + b / 32 <= (a + b) / 32,
        2 * ((a + b) / 32) <= (a + b) / 16,
{
}

proof fn lemma_perm_contains(a: Seq<BuildRecord>, b: Seq<BuildRecord>, i: int) -> (j: int)
    requires
        a.to_multiset() == b.to_multiset(),
        0 <= i < a.len(),
    ensures
        0 <= j < b.len(),
        b[j] == a[i],
{
    broadcast use vstd::seq_lib::group_to_multiset_ensures;

    assert(a.contains(a[i]));
    assert(a.to_multiset().count(a[i]) > 0);
    assert(b.contains(a[i]));
    choose|j: int| 0 <= j < b.len() && b[j] == a[i]
}

pub proof fn lemma_tight_box_perm(a: Seq<BuildRecord>, b: Seq<BuildRecord>, lo: QVec, hi: QVec)
    requires
        a.to_multiset() == b.to_multiset(),
        tight_box(a, lo, hi),
    ensures
        tight_box(b, lo, hi),
        a.len() == b.len(),
{
    a.to_multiset_ensures();
    b.to_multiset_ensures();
    assert forall|d: int| 0 <= d < 16 implies #[trigger] tight_in(b, d, lo.at(d), hi.at(d)) by {
        assert(tight_in(a, d, lo.at(d), hi.at(d)));
        if a.len() > 0 {
            assert forall|i: int| 0 <= i < b.len() implies lo.at(d) <= (#[trigger] b[i]).at(d)
                <= hi.at(d) by {
                let j = lemma_perm_contains(b, a, i);
            }
            let x = choose|i: int| 0 <= i < a.len() && (#[trigger] a[i]).at(d) == lo.at(d);
            let y = choose|i: int| 0 <= i < a.len() && (#[trigger] a[i]).at(d) == hi.at(d);
            let bx = lemma_perm_contains(a, b, x);
            let by = lemma_perm_contains(a, b, y);
        }
    }
}

proof fn lemma_divided_perm(
    a: Seq<BuildRecord>,
    b: Seq<BuildRecord>,
    a2: Seq<BuildRecord>,
    b2: Seq<BuildRecord>,
    d: int,
)
    requires
        divided(a, b, d),
        a.to_multiset() == a2.to_multiset(),
        b.to_multiset() == b2.to_multiset(),
    ensures
        divided(a2, b2, d),
{
    assert forall|i: int, j: int|
        0 <= i < a2.len() && 0 <= j < b2.len() implies (#[trigger] a2[i]).at(d) <= (
    #[trigger] b2[j]).at(d) by {
        let x = lemma_perm_contains(a2, a, i);
        let y = lemma_perm_contains(b2, b, j);
        assert(a[x].at(d) <= b[y].at(d));
    }
}

/// A tree stays a tree while its own nodes stay as they are.
pub proof fn lemma_tree_frame(
    nodes: Seq<KdNode>,
    other: Seq<KdNode>,
    i: int,
    recs: Seq<BuildRecord>,
    g: int,
)
    requires
        kd_tree(nodes, i, recs, g),
        i + tree_nodes(recs.len() as int) <= nodes.len(),
        nodes.len() <= other.len(),
        forall|j: int| i <= j < i + tree_nodes(recs.len() as int) ==> nodes[j] == #[trigger] other[j],
    ensures
        kd_tree(other, i, recs, g),
    decreases recs.len(),
{
    lemma_tree_nodes_positive(recs.len() as int);
    assert(nodes[i] == other[i]);
    if recs.len() > LEAF_SIZE {
        let mid = recs.len() as int / 2;
        lemma_tree_nodes_positive(mid);
        lemma_tree_nodes_positive(recs.len() - mid);
        lemma_tree_frame(nodes, other, i + 1, recs.take(mid), g);
        lemma_tree_frame(nodes, other, i + 1 + tree_nodes(mid), recs.skip(mid), g + mid);
    }
}

/// Calls `<[T]>::select_nth_unstable_by_key`, with the coordinate in dimension `dim` as the
/// key. It reorders the records so that nothing before position `mid` has a greater key
/// than the record there, and nothing behind it a smaller one. Which such order it leaves
/// is not stated.
#[verifier::external_body]
fn select_nth_by_dim(records: &mut [BuildRecord], mid: usize, dim: usize)
    requires
        mid < old(records)@.len(),
        dim < 16,
    ensures
        final(records)@.to_multiset() == old(records)@.to_multiset(),
        forall|i: int|
            0 <= i <= mid ==> (#[trigger] final(records)@[i]).at(dim as int)
                <= final(records)@[mid as int].at(dim as int),
        forall|i: int|
            mid <= i < final(records)@.len() ==> (#[trigger] final(records)@[i]).at(dim as int)
                >= final(records)@[mid as int].at(dim as int),
{
    records.select_nth_unstable_by_key(mid, |r| r.qvec.0[dim]);
}

/// Builds the tree over the records, which it reorders, and appends its nodes.
pub fn build_kd(records: &mut [BuildRecord], global_start: usize, nodes: &mut Vec<KdNode>) -> (r: (
    u32,
    QVec,
    QVec,
))
    requires
        global_start + old(records)@.len() <= u32::MAX,
        old(records)@.len() * (SPLIT_SAMPLE - 1) <= usize::MAX,
        old(nodes)@.len() + tree_nodes(old(records)@.len() as int) <= i32::MAX,
    ensures
        final(records)@.to_multiset() == old(records)@.to_multiset(),
        final(nodes)@.len() == old(nodes)@.len() + tree_nodes(old(records)@.len() as int),
        final(nodes)@.take(old(nodes)@.len() as int) == old(nodes)@,
        r.0 == old(nodes)@.len(),
        tight_box(final(records)@, r.1, r.2),
        kd_tree(final(nodes)@, r.0 as int, final(records)@, global_start as int),
        old(records)@.len() > LEAF_SIZE ==> halved_from(
            old(records)@,
            final(records)@,
            r.1,
            r.2,
        ),
{
    let ghost recs0 = records@;
    let (bbox_min, bbox_max) = bbox_records(records);
    let root: u32 = build_kd_with_bbox(records, global_start, nodes, bbox_min, bbox_max);
    proof {
        lemma_tight_box_perm(recs0, records@, bbox_min, bbox_max);
    }
    (root, bbox_min, bbox_max)
}

fn build_kd_with_bbox(
    records: &mut [BuildRecord],
    global_start: usize,
    nodes: &mut Vec<KdNode>,
    bbox_min: QVec,
    bbox_max: QVec,
) -> (r: u32)
    requires
        global_start + old(records)@.len() <= u32::MAX,
        old(records)@.len() * (SPLIT_SAMPLE - 1) <= usize::MAX,
        old(nodes)@.len() + tree_nodes(old(records)@.len() as int) <= i32::MAX,
        tight_box(old(records)@, bbox_min, bbox_max),
    ensures
        final(records)@.to_multiset() == old(records)@.to_multiset(),
        final(records)@.len() == old(records)@.len(),
        final(nodes)@.len() == old(nodes)@.len() + tree_nodes(old(records)@.len() as int),
        final(nodes)@.take(old(nodes)@.len() as int) == old(nodes)@,
        r == old(nodes)@.len(),
        kd_tree(final(nodes)@, r as int, final(records)@, global_start as int),
        old(records)@.len() > LEAF_SIZE ==> halved_from(
            old(records)@,
            final(records)@,
            bbox_min,
            bbox_max,
        ),
    decreases old(records)@.len(),
{
    let ghost recs0 = records@;
    let ghost nodes0 = nodes@;
    let ghost len = recs0.len() as int;
    let ghost mid0 = len / 2;
    proof {
        lemma_tree_nodes_positive(len);
        lemma_tree_nodes_positive(mid0);
        lemma_tree_nodes_positive(len - mid0);
    }
    if records.len() <= LEAF_SIZE {
        let idx: u32 = nodes.len() as u32;
        nodes.push(
            KdNode {
                bbox_min,
                bbox_max,
                left: -1,
                right: -1,
                start: global_start as u32,
                count: records.len() as u32,
            },
        );
        assert(nodes@.take(nodes0.len() as int) =~= nodes0);
        return idx;
    }
    let dim: usize = choose_split_dim(records, &bbox_min, &bbox_max);
    let mid: usize = records.len() / 2;
    select_nth_by_dim(records, mid, dim);
    let ghost recs1 = records@;
    proof {
        lemma_tight_box_perm(recs0, recs1, bbox_min, bbox_max);
    }
    let idx: u32 = nodes.len() as u32;
    nodes.push(KdNode { bbox_min, bbox_max, left: -1, right: -1, start: 0, count: 0 });
    let ghost nodes1 = nodes@;
    let (left_slice, right_slice) = records.split_at_mut(mid);
    let ghost l0 = left_slice@;
    let ghost r0 = right_slice@;
    assert(recs1 =~= l0 + r0);
    assert(divided(l0, r0, dim as int)) by {
        assert forall|i: int, j: int|
            0 <= i < l0.len() && 0 <= j < r0.len() implies (#[trigger] l0[i]).at(dim as int) <= (
        #[trigger] r0[j]).at(dim as int) by {
            assert(l0[i] == recs1[i]);
            assert(r0[j] == recs1[mid + j]);
        }
    }
    proof {
        let n = len;
        assert(mid0 * 511 <= n * 511 && (n - mid0) * 511 <= n * 511) by (nonlinear_arith)
            requires
                0 <= mid0 <= n,
        ;
    }
    let (left_min, left_max) = bbox_records(left_slice);
    let (right_min, right_max) = bbox_records(right_slice);
    let left: u32 = build_kd_with_bbox(left_slice, global_start, nodes, left_min, left_max);
    let ghost nodes2 = nodes@;
    let ghost l1 = left_slice@;
    let right: u32 = build_kd_with_bbox(
        right_slice,
        global_start + mid,
        nodes,
        right_min,
        right_max,
    );
    let ghost nodes3 = nodes@;
    let ghost r1 = right_slice@;
    nodes[idx as usize].left = left as i32;
    nodes[idx as usize].right = right as i32;
    let ghost nodes4 = nodes@;
    proof {
        let recs2 = l1 + r1;
        assert(recs2.take(mid0) =~= l1);
        assert(recs2.skip(mid0) =~= r1);
        vstd::seq_lib::lemma_multiset_commutative(l0, r0);
        vstd::seq_lib::lemma_multiset_commutative(l1, r1);
        lemma_tight_box_perm(recs1, recs2, bbox_min, bbox_max);
        lemma_divided_perm(l0, r0, l1, r1, dim as int);
        assert(halved_in(recs0, recs2, bbox_min, bbox_max, dim as int));
        assert(halved_from(recs0, recs2, bbox_min, bbox_max));
        let i = idx as int;
        assert forall|j: int| 0 <= j < nodes0.len() implies nodes4[j] == nodes0[j] by {
            assert(nodes1.take(nodes0.len() as int)[j] == nodes0[j]);
            assert(nodes2.take(nodes1.len() as int)[j] == nodes1[j]);
            assert(nodes3.take(nodes2.len() as int)[j] == nodes2[j]);
        }
        assert(nodes4.take(nodes0.len() as int) =~= nodes0);
        assert(nodes4[i].bbox_min == bbox_min && nodes4[i].bbox_max == bbox_max && nodes4[i].start
            == 0 && nodes4[i].count == 0) by {
            assert(nodes2.take(nodes1.len() as int)[i] == nodes1[i]);
            assert(nodes3.take(nodes2.len() as int)[i] == nodes2[i]);
        }
        assert forall|j: int| i + 1 <= j < nodes2.len() implies nodes2[j] == #[trigger] nodes4[j] by {
            assert(nodes3.take(nodes2.len() as int)[j] == nodes2[j]);
        }
        lemma_tree_frame(nodes2, nodes4, i + 1, l1, global_start as int);
        assert forall|j: int| nodes2.len() <= j < nodes3.len() implies nodes3[j]
            == #[trigger] nodes4[j] by {}
        lemma_tree_frame(nodes3, nodes4, right as int, r1, global_start + mid0);
    }
    idx
}

} // verus!
