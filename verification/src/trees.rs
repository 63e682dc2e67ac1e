//! In which dimension records are split, how large the leaves are, and where records go.
use crate::builder;
use crate::builder::{build_partitions, Built};
use crate::index::{KdNode, PartitionMeta, QVec};
use crate::kd;
use crate::kd::{bbox_records, build_kd, choose_split_dim, widest_dim, BuildRecord};
use crate::queries;
use vstd::prelude::*;

verus! {

/// The records that a split looks at: all of them, or 512 at equal distances.
pub open spec fn looked_at(recs: Seq<BuildRecord>) -> Seq<BuildRecord> {
    let n = if recs.len() < 512 {
        recs.len()
    } else {
        512
    };
    Seq::new(n, |s: int| recs[s * recs.len() as int / n as int])
}

/// The squared differences between `y` and the records, in dimension `d`.
pub open spec fn scatter_from(recs: Seq<BuildRecord>, y: int, d: int) -> int
    decreases recs.len(),
{
    if recs.len() == 0 {
        0
    } else {
        let x = recs.last().qvec.at(d);
        scatter_from(recs.drop_last(), y, d) + (x - y) * (x - y)
    }
}

/// How much the records scatter in dimension `d`: the squared differences of all pairs.
pub open spec fn scatter(recs: Seq<BuildRecord>, d: int) -> int
    decreases recs.len(),
{
    if recs.len() == 0 {
        0
    } else {
        scatter(recs.drop_last(), d) + scatter_from(
            recs.drop_last(),
            recs.last().qvec.at(d),
            d,
        )
    }
}

/// Dimension `d` comes before dimension `e`: the records scatter more in it, or as much and
/// the box is wider, or both are the same and it is the first.
pub open spec fn splits_before(
    recs: Seq<BuildRecord>,
    lo: QVec,
    hi: QVec,
    d: int,
    e: int,
) -> bool {
    let (s, t) = (scatter(looked_at(recs), d), scatter(looked_at(recs), e));
    let (v, w) = (hi.at(d) - lo.at(d), hi.at(e) - lo.at(e));
    s > t || s == t && (v > w || v == w && d < e)
}

/// Dimension `d` comes before all other features.
pub open spec fn is_best_split(recs: Seq<BuildRecord>, lo: QVec, hi: QVec, d: int) -> bool {
    &&& 0 <= d < 14
    &&& forall|e: int|
        0 <= e < 14 && e != d ==> #[trigger] splits_before(recs, lo, hi, d, e)
}

/// The sum of the coordinates.
spec fn total(recs: Seq<BuildRecord>, d: int) -> int
    decreases recs.len(),
{
    if recs.len() == 0 {
        0
    } else {
        total(recs.drop_last(), d) + recs.last().qvec.at(d)
    }
}

/// The sum of their squares.
spec fn total_sq(recs: Seq<BuildRecord>, d: int) -> int
    decreases recs.len(),
{
    if recs.len() == 0 {
        0
    } else {
        total_sq(recs.drop_last(), d) + recs.last().qvec.at(d) * recs.last().qvec.at(d)
    }
}

proof fn lemma_scatter_from(recs: Seq<BuildRecord>, y: int, d: int)
    ensures
        scatter_from(recs, y, d) == total_sq(recs, d) - 2 * (y * total(recs, d)) + recs.len() * (y
            * y),
        scatter_from(recs, y, d) >= 0,
    decreases recs.len(),
{
    if recs.len() > 0 {
        let t = recs.drop_last();
        lemma_scatter_from(t, y, d);
        let x = recs.last().qvec.at(d);
        let a = total(t, d);
        let n = t.len() as int;
        assert((x - y) * (x - y) == x * x - 2 * (y * x) + y * y) by (nonlinear_arith);
        assert(y * (a + x) == y * a + y * x) by (nonlinear_arith);
        assert((n + 1) * (y * y) == n * (y * y) + y * y) by (nonlinear_arith);
        assert((x - y) * (x - y) >= 0) by (nonlinear_arith);
    } else {
        assert(y * 0 == 0);
        assert(0 * (y * y) == 0);
    }
}

/// The squared differences of all pairs, from the sums.
proof fn lemma_scatter(recs: Seq<BuildRecord>, d: int)
    ensures
        scatter(recs, d) == recs.len() * total_sq(recs, d) - total(recs, d) * total(recs, d),
        scatter(recs, d) >= 0,
    decreases recs.len(),
{
    if recs.len() > 0 {
        let t = recs.drop_last();
        let y = recs.last().qvec.at(d);
        lemma_scatter(t, d);
        lemma_scatter_from(t, y, d);
        let a = total(t, d);
        let b = total_sq(t, d);
        let n = t.len() as int;
        assert((n + 1) * (b + y * y) == n * b + n * (y * y) + b + y * y) by (nonlinear_arith);
        assert((a + y) * (a + y) == a * a + 2 * (y * a) + y * y) by (nonlinear_arith);
    } else {
        assert(0 * total_sq(recs, d) == 0);
    }
}

proof fn lemma_sums(recs: Seq<BuildRecord>, samples: int, d: int, n: nat)
    requires
        n <= samples,
    ensures
        ({
            let s = Seq::new(n, |s: int| recs[s * recs.len() as int / samples]);
            &&& kd::sample_sum(recs, samples, d, n) == total(s, d)
            &&& kd::sample_sum_sq(recs, samples, d, n) == total_sq(s, d)
        }),
    decreases n,
{
    let s = Seq::new(n, |s: int| recs[s * recs.len() as int / samples]);
    if n > 0 {
        lemma_sums(recs, samples, d, (n - 1) as nat);
        assert(s.drop_last() =~= Seq::new(
            (n - 1) as nat,
            |s: int| recs[s * recs.len() as int / samples],
        ));
    }
}

proof fn lemma_spread(recs: Seq<BuildRecord>, d: int)
    ensures
        kd::spread(recs, d) == scatter(looked_at(recs), d),
        kd::spread(recs, d) >= 0,
        recs.len() < 2 ==> scatter(looked_at(recs), d) == 0,
{
    let n = kd::sample_count(recs.len() as int);
    lemma_sums(recs, n, d, n as nat);
    let s = Seq::new(n as nat, |s: int| recs[s * recs.len() as int / n]);
    assert(looked_at(recs) =~= s);
    lemma_scatter(s, d);
    if recs.len() < 2 {
        let t = looked_at(recs);
        reveal_with_fuel(scatter, 3);
        reveal_with_fuel(scatter_from, 2);
    }
}

proof fn lemma_split(recs: Seq<BuildRecord>, lo: QVec, hi: QVec, d: int)
    requires
        kd::split_dim(recs, lo, hi, d),
    ensures
        is_best_split(recs, lo, hi, d),
{
    lemma_spread(recs, d);
    assert forall|e: int| 0 <= e < 14 && e != d implies #[trigger] splits_before(
        recs,
        lo,
        hi,
        d,
        e,
    ) by {
        lemma_spread(recs, e);
        if recs.len() >= 2 && exists|e: int| 0 <= e < 14 && #[trigger] kd::spread(recs, e) > 0 {
            if e < d {
                assert(kd::better_split(recs, lo, hi, d, e));
            } else {
                assert(!kd::better_split(recs, lo, hi, e, d));
            }
            assert(kd::width(lo, hi, e) == hi.at(e) - lo.at(e));
        } else {
            if recs.len() >= 2 {
                assert(!(kd::spread(recs, e) > 0));
                assert(!(kd::spread(recs, d) > 0));
            }
            if e < d {
                assert(kd::width(lo, hi, e) < kd::width(lo, hi, d));
            } else {
                assert(kd::width(lo, hi, e) <= kd::width(lo, hi, d));
            }
        }
    }
}

/// Records are split in the dimension in which they scatter most; where they scatter as much
/// in several, in the one in which their box is widest, and among those in the first.
pub proof fn law_records_are_split_where_they_scatter_most(
    records: &[BuildRecord],
    lo: QVec,
    hi: QVec,
    r: usize,
)
    requires
        call_ensures(choose_split_dim, (records, &lo, &hi), r),
    ensures
        is_best_split(records@, lo, hi, r as int),
{
    lemma_split(records@, lo, hi, r as int);
}

/// The widest dimension of a box is the first among the features in which it is widest.
pub proof fn law_widest_dimension_is_the_first(lo: QVec, hi: QVec, r: usize)
    requires
        call_ensures(widest_dim, (&lo, &hi), r),
    ensures
        r < 14,
        forall|e: int|
            0 <= e < 14 ==> #[trigger] hi.at(e) - lo.at(e) <= hi.at(r as int) - lo.at(r as int)
                && (hi.at(e) - lo.at(e) == hi.at(r as int) - lo.at(r as int) ==> r <= e),
{
    assert forall|e: int| 0 <= e < 14 implies #[trigger] hi.at(e) - lo.at(e) <= hi.at(r as int)
        - lo.at(r as int) && (hi.at(e) - lo.at(e) == hi.at(r as int) - lo.at(r as int) ==> r
        <= e) by {
        assert(kd::width(lo, hi, e) <= kd::width(lo, hi, r as int));
        if e < r {
            assert(kd::width(lo, hi, e) < kd::width(lo, hi, r as int));
        }
    }
}

/// The box of records reaches from the least to the greatest coordinate in each dimension;
/// without records it is empty at zero.
pub proof fn law_box_reaches_from_least_to_greatest(
    records: &[BuildRecord],
    r: (QVec, QVec),
    d: int,
)
    requires
        call_ensures(bbox_records, (records,), r),
        0 <= d < 16,
    ensures
        records@.len() == 0 ==> r.0.at(d) == 0 && r.1.at(d) == 0,
        records@.len() > 0 ==> {
            &&& forall|i: int|
                0 <= i < records@.len() ==> r.0.at(d) <= (#[trigger] records@[i]).qvec.at(d)
                    <= r.1.at(d)
            &&& exists|i: int|
                0 <= i < records@.len() && (#[trigger] records@[i]).qvec.at(d) == r.0.at(d)
            &&& exists|i: int|
                0 <= i < records@.len() && (#[trigger] records@[i]).qvec.at(d) == r.1.at(d)
        },
{
    assert(kd::tight_in(records@, d, r.0.at(d), r.1.at(d)));
    if records@.len() > 0 {
        let a = choose|i: int|
            0 <= i < records@.len() && (#[trigger] records@[i]).at(d) == r.0.at(d);
        assert(records@[a].qvec.at(d) == r.0.at(d));
        let b = choose|i: int|
            0 <= i < records@.len() && (#[trigger] records@[i]).at(d) == r.1.at(d);
        assert(records@[b].qvec.at(d) == r.1.at(d));
        assert forall|i: int| 0 <= i < records@.len() implies r.0.at(d) <= (
        #[trigger] records@[i]).qvec.at(d) <= r.1.at(d) by {
            assert(r.0.at(d) <= records@[i].at(d) <= r.1.at(d));
        }
    }
}

/// The records reach in dimension `d` from `lo` to `hi`.
pub open spec fn reach(recs: Seq<BuildRecord>, d: int, lo: int, hi: int) -> bool {
    &&& forall|i: int| 0 <= i < recs.len() ==> lo <= (#[trigger] recs[i]).qvec.at(d) <= hi
    &&& exists|i: int| 0 <= i < recs.len() && (#[trigger] recs[i]).qvec.at(d) == lo
    &&& exists|i: int| 0 <= i < recs.len() && (#[trigger] recs[i]).qvec.at(d) == hi
}

/// The box reaches as far as the records in each dimension.
pub open spec fn is_box_of(recs: Seq<BuildRecord>, lo: QVec, hi: QVec) -> bool {
    forall|d: int| 0 <= d < 16 ==> #[trigger] reach(recs, d, lo.at(d), hi.at(d))
}

proof fn lemma_is_box_of(recs: Seq<BuildRecord>, lo: QVec, hi: QVec)
    requires
        kd::tight_box(recs, lo, hi),
        recs.len() > 0,
    ensures
        is_box_of(recs, lo, hi),
{
    assert forall|d: int| 0 <= d < 16 implies #[trigger] reach(recs, d, lo.at(d), hi.at(d)) by {
        assert(kd::tight_in(recs, d, lo.at(d), hi.at(d)));
        let i = choose|i: int| 0 <= i < recs.len() && (#[trigger] recs[i]).at(d) == lo.at(d);
        let j = choose|j: int| 0 <= j < recs.len() && (#[trigger] recs[j]).at(d) == hi.at(d);
        assert(recs[i].qvec.at(d) == lo.at(d));
        assert(recs[j].qvec.at(d) == hi.at(d));
    }
}

/// The nodes of a tree over `n` records: one for up to 64, otherwise one more than those of
/// both halves.
pub open spec fn nodes_over(n: int) -> int
    decreases n,
{
    if n <= 64 {
        1
    } else {
        1 + nodes_over(n / 2) + nodes_over(n - n / 2)
    }
}

proof fn lemma_nodes_over(n: int)
    ensures
        kd::tree_nodes(n) == nodes_over(n),
    decreases n,
{
    if n > 64 {
        lemma_nodes_over(n / 2);
        lemma_nodes_over(n - n / 2);
    }
}

/// A tree over up to 64 records is a leaf that holds them. Over more it is a node whose
/// children are trees over the first and the second half, of which the first stands right
/// behind the node and the second behind that; some feature divides the halves, the one that
/// comes first when they are looked at in some order.
pub proof fn law_tree_halves_its_records(
    nodes: Seq<KdNode>,
    i: int,
    recs: Seq<BuildRecord>,
    g: int,
)
    requires
        kd::kd_tree(nodes, i, recs, g),
    ensures
        recs.len() <= 64 <==> nodes[i].left < 0,
        recs.len() > 0 ==> is_box_of(recs, nodes[i].bbox_min, nodes[i].bbox_max),
        recs.len() <= 64 ==> nodes[i].start == g && nodes[i].count == recs.len(),
        recs.len() <= 64 ==> nodes[i].left == -1 && nodes[i].right == -1,
        recs.len() > 64 ==> nodes[i].start == 0 && nodes[i].count == 0,
        recs.len() > 64 ==> {
            let half = recs.len() as int / 2;
            let right = i + 1 + nodes_over(half);
            &&& nodes[i].left == i + 1 && kd::kd_tree(nodes, i + 1, recs.take(half), g)
            &&& nodes[i].right == right && kd::kd_tree(nodes, right, recs.skip(half), g + half)
            &&& exists|p: Seq<BuildRecord>, d: int|
                {
                    &&& p.to_multiset() == recs.to_multiset()
                    &&& #[trigger] is_best_split(p, nodes[i].bbox_min, nodes[i].bbox_max, d)
                    &&& forall|a: int, b: int|
                        0 <= a < half <= b < recs.len() ==> (#[trigger] recs[a]).qvec.at(d) <= (
                        #[trigger] recs[b]).qvec.at(d)
                }
        },
{
    if recs.len() > 0 {
        lemma_is_box_of(recs, nodes[i].bbox_min, nodes[i].bbox_max);
    }
    if recs.len() > 64 {
        let half = recs.len() as int / 2;
        let (lo, hi) = (nodes[i].bbox_min, nodes[i].bbox_max);
        lemma_nodes_over(half);
        let p = choose|p: Seq<BuildRecord>| #[trigger] kd::halved_from(p, recs, lo, hi);
        let d = choose|d: int| #[trigger] kd::halved_in(p, recs, lo, hi, d);
        lemma_split(p, lo, hi, d);
        assert forall|a: int, b: int| 0 <= a < half <= b < recs.len() implies (
        #[trigger] recs[a]).qvec.at(d) <= (#[trigger] recs[b]).qvec.at(d) by {
            assert(recs.take(half)[a] == recs[a]);
            assert(recs.skip(half)[b - half] == recs[b]);
            assert(recs.take(half)[a].at(d) <= recs.skip(half)[b - half].at(d));
        }
        assert(is_best_split(p, lo, hi, d));
    }
}

/// A built tree stands behind the nodes that were there, has the nodes that its records need,
/// and divides them in the dimension that comes first in the order in which they were given.
pub proof fn law_built_tree_divides_its_records(
    records: &mut [BuildRecord],
    start: usize,
    nodes: &mut Vec<KdNode>,
    r: (u32, QVec, QVec),
)
    requires
        call_ensures(build_kd, (records, start, nodes), r),
    ensures
        r.0 == old(nodes)@.len(),
        final(nodes)@.len() == old(nodes)@.len() + nodes_over(old(records)@.len() as int),
        final(records)@.to_multiset() == old(records)@.to_multiset(),
        kd::kd_tree(final(nodes)@, r.0 as int, final(records)@, start as int),
        old(records)@.len() > 64 ==> exists|d: int|
            {
                &&& #[trigger] is_best_split(old(records)@, r.1, r.2, d)
                &&& forall|a: int, b: int|
                    0 <= a < old(records)@.len() as int / 2 <= b < old(records)@.len() ==> (
                    #[trigger] final(records)@[a]).qvec.at(d) <= (
                    #[trigger] final(records)@[b]).qvec.at(d)
            },
{
    lemma_nodes_over(old(records)@.len() as int);
    let recs = final(records)@;
    old(records)@.to_multiset_ensures();
    recs.to_multiset_ensures();
    if old(records)@.len() > 64 {
        let half = recs.len() as int / 2;
        let d = choose|d: int| #[trigger]
            kd::halved_in(old(records)@, recs, r.1, r.2, d);
        lemma_split(old(records)@, r.1, r.2, d);
        assert forall|a: int, b: int| 0 <= a < half <= b < recs.len() implies (
        #[trigger] recs[a]).qvec.at(d) <= (#[trigger] recs[b]).qvec.at(d) by {
            assert(recs.take(half)[a] == recs[a]);
            assert(recs.skip(half)[b - half] == recs[b]);
            assert(recs.take(half)[a].at(d) <= recs.skip(half)[b - half].at(d));
        }
        assert(is_best_split(old(records)@, r.1, r.2, d));
    }
}

/// A record has the vector, one for a fraud and zero otherwise, and the key of its partition.
pub proof fn law_record_is_what_it_is_made_of(v: QVec, fraud: bool, r: BuildRecord)
    requires
        call_ensures(BuildRecord::new, (v, fraud), r),
    ensures
        r.qvec == v,
        r.label == 1 <==> fraud,
        r.label == 0 <==> !fraud,
        queries::is_key_of(r.key as int, v),
{
    queries::lemma_is_key(v);
}

/// The number of entries with a key from `lo` to below `hi`.
pub open spec fn keyed(s: Seq<BuildRecord>, lo: int, hi: int) -> int
    decreases s.len(),
{
    if s.len() == 0 {
        0
    } else {
        keyed(s.drop_last(), lo, hi) + if lo <= s.last().key < hi {
            1int
        } else {
            0
        }
    }
}

proof fn lemma_keyed_split(s: Seq<BuildRecord>, lo: int, mid: int, hi: int)
    requires
        lo <= mid <= hi,
    ensures
        keyed(s, lo, hi) == keyed(s, lo, mid) + keyed(s, mid, hi),
    decreases s.len(),
{
    if s.len() > 0 {
        lemma_keyed_split(s.drop_last(), lo, mid, hi);
    }
}

proof fn lemma_with_key(s: Seq<BuildRecord>, k: int)
    ensures
        builder::with_key(s, k).len() == keyed(s, k, k + 1),
    decreases s.len(),
{
    if s.len() > 0 {
        lemma_with_key(s.drop_last(), k);
    }
}

proof fn lemma_none_keyed(s: Seq<BuildRecord>)
    ensures
        keyed(s, 0, 0) == 0,
    decreases s.len(),
{
    if s.len() > 0 {
        lemma_none_keyed(s.drop_last());
    }
}

proof fn lemma_count_below(s: Seq<BuildRecord>, k: int)
    requires
        0 <= k,
    ensures
        builder::count_below(s, k) == keyed(s, 0, k),
    decreases k,
{
    if k > 0 {
        lemma_count_below(s, k - 1);
        lemma_with_key(s, k - 1);
        lemma_keyed_split(s, 0, k - 1, k);
    } else {
        lemma_none_keyed(s);
    }
}

/// Partition `k` of what is built holds as many records as there are entries with its key,
/// behind those with smaller keys, and each of them has that key; the records together are the
/// entries.
pub proof fn law_partition_holds_the_entries_with_its_key(
    entries: &[BuildRecord],
    built: Built,
    k: int,
)
    requires
        call_ensures(build_partitions, (entries,), built),
        0 <= k < 256,
    ensures
        built.partitions@.len() == 256,
        built.records@.to_multiset() == entries@.to_multiset(),
        built.partitions@[k].count == keyed(entries@, k, k + 1),
        built.partitions@[k].count > 0 ==> {
            &&& built.partitions@[k].start == keyed(entries@, 0, k)
            &&& built.partitions@[k].root >= 0
            &&& forall|i: int|
                built.partitions@[k].start <= i < built.partitions@[k].start
                    + built.partitions@[k].count ==> (#[trigger] built.records@[i]).key == k
        },
        built.partitions@[k].count == 0 ==> built.partitions@[k].start == 0
            && built.partitions@[k].root == -1,
{
    let p = built.partitions@[k];
    assert(builder::partition_built(
        entries@,
        built.records@,
        p,
        built.partition_node_counts@[k],
        built.nodes@,
        k,
    ));
    lemma_with_key(entries@, k);
    lemma_count_below(entries@, k);
    builder::law_records_are_the_entries(built, entries@);
    if p.count > 0 {
        assert forall|i: int| p.start <= i < p.start + p.count implies (
        #[trigger] built.records@[i]).key == k by {
            builder::lemma_key_of_record(built, entries@, k, i);
        }
    }
}

/// The nodes of the trees of the partitions below `k`.
pub open spec fn nodes_before(partitions: Seq<PartitionMeta>, k: int) -> int
    decreases k,
{
    if k <= 0 {
        0
    } else {
        nodes_before(partitions, k - 1) + if partitions[k - 1].count == 0 {
            0int
        } else {
            nodes_over(partitions[k - 1].count as int)
        }
    }
}

proof fn lemma_nodes_before(built: Built, entries: Seq<BuildRecord>, k: int)
    requires
        built.built_from(entries),
        0 <= k <= 256,
    ensures
        builder::nodes_below(entries, k) == nodes_before(built.partitions@, k),
    decreases k,
{
    if k > 0 {
        lemma_nodes_before(built, entries, k - 1);
        assert(builder::partition_built(
            entries,
            built.records@,
            built.partitions@[k - 1],
            built.partition_node_counts@[k - 1],
            built.nodes@,
            k - 1,
        ));
        lemma_nodes_over(built.partitions@[k - 1].count as int);
    }
}

/// The tree of a partition stands behind the trees of those before it and is a tree over the
/// records of the partition, whose box is that of the partition; how many nodes it has is
/// written down for each partition, and an empty one has none.
pub proof fn law_partition_has_its_tree_behind_the_others(
    entries: &[BuildRecord],
    built: Built,
    k: int,
)
    requires
        call_ensures(build_partitions, (entries,), built),
        0 <= k < 256,
    ensures
        built.nodes@.len() == nodes_before(built.partitions@, 256),
        built.partition_node_counts@.len() == 256,
        ({
            let p = built.partitions@[k];
            let run = built.records@.subrange(p.start as int, p.start + p.count);
            &&& p._pad == 0
            &&& built.partition_node_counts@[k] == if p.count == 0 {
                0
            } else {
                nodes_over(p.count as int)
            }
            &&& p.count > 0 ==> {
                &&& p.root == nodes_before(built.partitions@, k)
                &&& kd::kd_tree(built.nodes@, p.root as int, run, p.start as int)
                &&& is_box_of(run, p.bbox_min, p.bbox_max)
            }
            &&& p.count == 0 ==> forall|d: int|
                0 <= d < 16 ==> p.bbox_min.at(d) == 0 && #[trigger] p.bbox_max.at(d) == 0
        }),
{
    let p = built.partitions@[k];
    assert(builder::partition_built(
        entries@,
        built.records@,
        p,
        built.partition_node_counts@[k],
        built.nodes@,
        k,
    ));
    lemma_nodes_before(built, entries@, k);
    lemma_nodes_before(built, entries@, 256);
    lemma_nodes_over(p.count as int);
    if p.count > 0 {
        let run = built.records@.subrange(p.start as int, p.start + p.count);
        lemma_is_box_of(run, p.bbox_min, p.bbox_max);
    }
}

} // verus!
