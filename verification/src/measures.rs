//! What distances, bounds, the five nearest and the counters of a search are.
use crate::decided;
use crate::distance;
use crate::distance::{dist_sq, lower_bound, staged_distance, Staged};
use crate::exact;
use crate::index;
use crate::index::QVec;
use crate::search;
use crate::search::{Index, SearchStats};
use crate::tallies;
use crate::top5;
use crate::top5::Top5;
use crate::traversal::Progress;
use vstd::prelude::*;

verus! {

/// The coordinates are so near that no difference and no distance overflows.
pub open spec fn comparable(a: QVec, b: QVec) -> bool {
    &&& forall|d: int| 0 <= d < 16 ==> -0x7fff <= #[trigger] a.at(d) - b.at(d) <= 0x7fff
    &&& exact::squared_distance(a, b) <= i32::MAX
}

/// The squared difference in dimension `d`.
spec fn apart(a: QVec, b: QVec, d: int) -> int {
    (a.at(d) - b.at(d)) * (a.at(d) - b.at(d))
}

proof fn lemma_lane(a: QVec, b: QVec, d: int)
    requires
        0 <= d < 16,
        -0x7fff <= a.at(d) - b.at(d) <= 0x7fff,
    ensures
        distance::lane(a, b, d) == apart(a, b, d),
        apart(a, b, d) >= 0,
{
    let x = a.at(d) - b.at(d);
    assert(distance::wrap16(x) == x);
    assert(x * x >= 0) by (nonlinear_arith);
}

proof fn lemma_sums(a: QVec, b: QVec)
    requires
        forall|d: int| 0 <= d < 16 ==> -0x7fff <= #[trigger] a.at(d) - b.at(d) <= 0x7fff,
    ensures
        distance::hot_sum(a, b) == apart(a, b, 0) + apart(a, b, 1) + apart(a, b, 2) + apart(
            a,
            b,
            8,
        ),
        distance::mid_sum(a, b) == apart(a, b, 4) + apart(a, b, 6) + apart(a, b, 7) + apart(
            a,
            b,
            13,
        ),
        distance::hot_sum(a, b) + distance::mid_sum(a, b) + distance::cold_sum(a, b)
            == exact::squared_distance(a, b),
        distance::hot_sum(a, b) >= 0,
        distance::mid_sum(a, b) >= 0,
        distance::cold_sum(a, b) >= 0,
{
    reveal_with_fuel(exact::squared_distance_to, 17);
    assert forall|d: int| 0 <= d < 16 implies #[trigger] distance::lane(a, b, d) == apart(a, b, d)
        && apart(a, b, d) >= 0 by {
        assert(-0x7fff <= a.at(d) - b.at(d) <= 0x7fff);
        lemma_lane(a, b, d);
    }
}

/// The distance of two vectors is the sum of the squared differences of all coordinates,
/// wherever that fits.
pub proof fn law_distance_is_the_sum_of_squares(a: QVec, b: QVec, r: i32)
    requires
        call_ensures(dist_sq, (&a, &b), r),
        comparable(a, b),
    ensures
        r == exact::squared_distance(a, b),
{
    lemma_sums(a, b);
}

/// A candidate is given up as soon as four of its coordinates, or four more, put it as far off
/// as the worst neighbour; otherwise all coordinates count.
pub proof fn law_candidate_is_given_up_in_stages(q: QVec, v: QVec, worst: i32, r: Staged)
    requires
        call_ensures(staged_distance, (&q, &v, worst), r),
        comparable(q, v),
    ensures
        ({
            let hot = exact::axis(q, v, 0) + exact::axis(q, v, 1) + exact::axis(q, v, 2)
                + exact::axis(q, v, 8);
            let mid = exact::axis(q, v, 4) + exact::axis(q, v, 6) + exact::axis(q, v, 7)
                + exact::axis(q, v, 13);
            &&& r is HotPruned <==> hot >= worst
            &&& r is MidPruned <==> hot < worst <= hot + mid
            &&& r matches Staged::Full { dist } ==> dist == exact::squared_distance(q, v)
        }),
{
    lemma_sums(q, v);
}

/// What the first four coordinates that are compared put between `a` and `b`.
pub open spec fn apart_at_first(a: QVec, b: QVec) -> int {
    exact::axis(a, b, 0) + exact::axis(a, b, 1) + exact::axis(a, b, 2) + exact::axis(a, b, 8)
}

/// What the first eight coordinates that are compared put between `a` and `b`.
pub open spec fn apart_at_second(a: QVec, b: QVec) -> int {
    apart_at_first(a, b) + exact::axis(a, b, 4) + exact::axis(a, b, 6) + exact::axis(a, b, 7)
        + exact::axis(a, b, 13)
}

/// In the domain the stages are partial sums of the distance.
pub proof fn lemma_stages_in_domain(a: QVec, b: QVec)
    requires
        a.in_domain(),
        b.in_domain(),
    ensures
        distance::hot_bound(a, b) == apart_at_first(a, b),
        distance::mid_bound(a, b) == apart_at_second(a, b),
        distance::distance(a, b) == exact::squared_distance(a, b),
        0 <= apart_at_first(a, b) <= apart_at_second(a, b) <= exact::squared_distance(a, b),
        exact::squared_distance(a, b) <= 2_000_000_000,
{
    exact::law_distance_is_euclidean(a, b);
    assert forall|d: int| 0 <= d < 16 implies -0x7fff <= #[trigger] a.at(d) - b.at(d) <= 0x7fff by {
        if d < 14 {
            assert(index::coordinate_in_domain(d, a.at(d)));
            assert(index::coordinate_in_domain(d, b.at(d)));
        }
    }
    lemma_sums(a, b);
}

/// `v` is the point of the box `lo ..= hi` that is nearest to `q`.
pub open spec fn is_nearest_point(v: QVec, q: QVec, lo: QVec, hi: QVec) -> bool {
    forall|d: int|
        0 <= d < 16 ==> #[trigger] v.at(d) == if q.at(d) < lo.at(d) {
            lo.at(d)
        } else if q.at(d) > hi.at(d) {
            hi.at(d)
        } else {
            q.at(d)
        }
}

proof fn lemma_gap(q: int, v: int, lo: int, hi: int)
    requires
        lo <= hi,
        -0x7fff <= q - v <= 0x7fff,
        v == if q < lo {
            lo
        } else if q > hi {
            hi
        } else {
            q
        },
    ensures
        distance::square(distance::gap(q, lo, hi)) == (q - v) * (q - v),
        (q - v) * (q - v) >= 0,
{
    let x = distance::saturated(lo - q) as i16;
    let y = distance::saturated(q - hi) as i16;
    assert(x | 0 == x) by (bit_vector);
    assert(0 | y == y) by (bit_vector);
    assert(0i16 | 0i16 == 0i16) by (bit_vector);
    let g = distance::gap(q, lo, hi);
    assert(g == q - v || g == v - q);
    let z = q - v;
    assert(z * z == (-z) * (-z)) by (nonlinear_arith);
    assert(z * z >= 0) by (nonlinear_arith);
}

proof fn lemma_gap_sum(q: QVec, v: QVec, lo: QVec, hi: QVec, n: nat)
    requires
        n <= 16,
        is_nearest_point(v, q, lo, hi),
        forall|d: int| 0 <= d < 16 ==> #[trigger] lo.at(d) <= hi.at(d),
        forall|d: int| 0 <= d < 16 ==> -0x7fff <= #[trigger] q.at(d) - v.at(d) <= 0x7fff,
    ensures
        distance::gap_sum(q, lo, hi, n) == exact::squared_distance_to(q, v, n),
        exact::squared_distance_to(q, v, n) >= 0,
    decreases n,
{
    if n > 0 {
        lemma_gap_sum(q, v, lo, hi, (n - 1) as nat);
        let d = n - 1;
        assert(lo.at(d) <= hi.at(d));
        assert(-0x7fff <= q.at(d) - v.at(d) <= 0x7fff);
        assert(v.at(d) == v.at(d));
        lemma_gap(q.at(d), v.at(d), lo.at(d), hi.at(d));
    }
}

/// The bound of a box is the distance to its nearest point: no less, so that nothing is opened
/// in vain, and no more, so that nothing is missed.
pub proof fn law_box_bound_is_that_of_its_nearest_point(
    q: QVec,
    lo: QVec,
    hi: QVec,
    v: QVec,
    r: i32,
)
    requires
        call_ensures(lower_bound, (&q, &lo, &hi), r),
        forall|d: int| 0 <= d < 16 ==> #[trigger] lo.at(d) <= hi.at(d),
        is_nearest_point(v, q, lo, hi),
        comparable(q, v),
    ensures
        r == exact::squared_distance(q, v),
{
    lemma_gap_sum(q, v, lo, hi, 16);
}

/// `after` is `before` with `x` at place `p`, those from there on one place further back, and
/// the last one gone.
pub open spec fn moved_in<T>(before: Seq<T>, after: Seq<T>, p: int, x: T) -> bool {
    &&& 0 <= p <= 4
    &&& after[p] == x
    &&& forall|i: int| 0 <= i < p ==> #[trigger] after[i] == before[i]
    &&& forall|i: int| p < i < 5 ==> #[trigger] after[i] == before[i - 1]
}

/// All before place `p` are as near as `d`, and all from there on are farther.
pub open spec fn is_place_of(dists: Seq<i32>, d: i32, p: int) -> bool {
    &&& forall|i: int| 0 <= i < p ==> #[trigger] dists[i] <= d
    &&& forall|i: int| p <= i < 5 ==> #[trigger] dists[i] > d
}

/// A neighbour that is nearer than the worst takes its place behind all that are as near and
/// before all that are farther, those move back by one, and the worst leaves; one that is not
/// changes nothing.
pub proof fn law_neighbour_takes_its_place(t: &mut Top5, dist: i32, is_fraud: bool)
    requires
        call_ensures(Top5::try_insert, (t, dist, is_fraud), ()),
        forall|i: int, j: int|
            0 <= i <= j < 5 ==> #[trigger] old(t).dists@[i] <= #[trigger] old(t).dists@[j],
    ensures
        dist >= old(t).dists@[4] ==> final(t).dists@ == old(t).dists@ && final(t).fraud@
            == old(t).fraud@,
        dist < old(t).dists@[4] ==> exists|p: int| #[trigger]
            is_place_of(old(t).dists@, dist, p) && moved_in(old(t).dists@, final(t).dists@, p, dist)
                && moved_in(old(t).fraud@, final(t).fraud@, p, is_fraud),
{
    if dist < old(t).dists@[4] {
        let before = old(t).dist_seq();
        let p = top5::slot(before, dist as int, 4) as int;
        exact::lemma_slot_splits(before, dist as int, 4);
        let d = old(t).dists@;
        assert forall|i: int| 0 <= i < p implies #[trigger] d[i] <= dist by {
            assert(before[p - 1] == d[p - 1]);
            assert(d[i] <= d[p - 1]);
        }
        assert forall|i: int| p <= i < 5 implies #[trigger] d[i] > dist by {
            if i < 4 {
                assert(before[i] == d[i]);
            }
        }
        assert(is_place_of(d, dist, p));
        assert(moved_in(d, final(t).dists@, p, dist));
        assert(moved_in(old(t).fraud@, final(t).fraud@, p, is_fraud));
    }
}

/// The frauds are those of the five places.
pub proof fn law_frauds_are_counted(t: Top5, r: u32)
    requires
        call_ensures(Top5::fraud_count, (&t,), r),
    ensures
        ({
            let one = |i: int|
                if t.fraud@[i] {
                    1int
                } else {
                    0
                };
            r == one(0) + one(1) + one(2) + one(3) + one(4)
        }),
{
    let s = t.fraud@;
    reveal_with_fuel(top5::count_set, 6);
    let a = s.drop_last();
    let b = a.drop_last();
    let c = b.drop_last();
    let d = c.drop_last();
    assert(d.drop_last().len() == 0);
    assert(s.last() == s[4] && a.last() == s[3] && b.last() == s[2] && c.last() == s[1]
        && d.last() == s[0]);
}

/// The number of the chosen vectors that are labelled as frauds.
pub open spec fn labelled_frauds(ix: Index, sel: Seq<int>) -> int
    decreases sel.len(),
{
    if sel.len() == 0 {
        0
    } else {
        labelled_frauds(ix, sel.drop_last()) + if ix.labels@[sel.last()] != 0 {
            1int
        } else {
            0
        }
    }
}

proof fn lemma_frauds(ix: Index, sel: Seq<int>)
    requires
        forall|i: int| 0 <= i < sel.len() ==> 0 <= #[trigger] sel[i],
    ensures
        ix.frauds(sel) == labelled_frauds(ix, sel),
    decreases sel.len(),
{
    let flags = Seq::new(sel.len(), |i: int| ix.fraud(sel[i]));
    if sel.len() > 0 {
        let t = sel.drop_last();
        assert forall|i: int| 0 <= i < t.len() implies 0 <= #[trigger] t[i] by {
            assert(t[i] == sel[i]);
        }
        lemma_frauds(ix, t);
        assert(flags.drop_last() =~= Seq::new(t.len(), |i: int| ix.fraud(t[i])));
        assert(0 <= sel[sel.len() - 1]);
    }
}

/// `sel` are five different vectors such that no other one is nearer to `q` than any of them;
/// all of them, where there are fewer than five.
pub open spec fn are_nearest(ix: Index, q: QVec, sel: Seq<int>) -> bool {
    &&& sel.len() == 5 || sel.len() == ix.count && ix.count < 5
    &&& forall|i: int| 0 <= i < sel.len() ==> 0 <= #[trigger] sel[i] < ix.count
    &&& forall|i: int, j: int| 0 <= i < j < sel.len() ==> #[trigger] sel[i] != #[trigger] sel[j]
    &&& forall|i: int, id: int|
        #![trigger sel[i], ix.vectors@[id]]
        0 <= i < sel.len() && 0 <= id < ix.count && (forall|j: int|
            0 <= j < sel.len() ==> #[trigger] sel[j] != id) ==> exact::squared_distance(
            q,
            ix.vectors@[sel[i]],
        ) <= exact::squared_distance(q, ix.vectors@[id])
}

/// A search that may reach everything counts the frauds of five nearest vectors.
pub proof fn law_search_counts_the_frauds_of_the_nearest(ix: Index, q: QVec, r: u32)
    requires
        call_ensures(Index::search_exact, (&ix, &q), r),
        ix.sound(),
        ix.nodes@.len() == 0 || ix.unlimited(),
        q.in_domain(),
    ensures
        exists|sel: Seq<int>| #[trigger]
            are_nearest(ix, q, sel) && r == labelled_frauds(ix, sel),
{
    exact::law_search_is_exact(ix, q);
    let sel = choose|sel: Seq<int>| #[trigger]
        ix.nearest(q, sel) && ix.votes(ix.run(q)) == ix.frauds(sel);
    lemma_frauds(ix, sel);
    assert forall|i: int, id: int|
        #![trigger sel[i], ix.vectors@[id]]
        0 <= i < sel.len() && 0 <= id < ix.count && (forall|j: int|
            0 <= j < sel.len() ==> #[trigger] sel[j] != id) implies exact::squared_distance(
        q,
        ix.vectors@[sel[i]],
    ) <= exact::squared_distance(q, ix.vectors@[id]) by {
        assert(!sel.contains(id));
        assert(ix.vector(id) == ix.vectors@[id]);
        assert(ix.vector(sel[i]) == ix.vectors@[sel[i]]);
    }
    assert(are_nearest(ix, q, sel));
}

/// A search of the query's own partition alone counts the frauds of five nearest vectors of that
/// partition.
pub proof fn law_primary_search_counts_its_own_frauds(ix: Index, q: QVec, r: u32, key: u8)
    requires
        call_ensures(Index::search_exact, (&ix, &q), r),
        call_ensures(index::partition_key, (&q,), key),
        ix.sound(),
        ix.nodes@.len() > 0,
        ix.limits.primary_only,
        q.in_domain(),
    ensures
        ({
            let p = ix.partitions@[key as int];
            exists|sel: Seq<int>| #[trigger]
                ix.nearest_among(q, sel, p.start as int, p.start + p.count) && r
                    == labelled_frauds(ix, sel)
        }),
{
    let p = ix.partitions@[key as int];
    exact::law_primary_search_is_exact(ix, q);
    let sel = choose|sel: Seq<int>| #[trigger]
        ix.nearest_among(q, sel, p.start as int, p.start + p.count) && ix.votes(ix.run(q))
            == ix.frauds(sel);
    lemma_frauds(ix, sel);
}

/// Where within some distance there are exactly as many vectors as vote, the frauds among them
/// are counted.
pub proof fn law_search_counts_the_frauds_within(ix: Index, q: QVec, r: u32, t: int)
    requires
        call_ensures(Index::search_exact, (&ix, &q), r),
        ix.sound(),
        ix.nodes@.len() == 0 || ix.unlimited(),
        q.in_domain(),
        decided::within(ix.labelled(), q, t) == if ix.count < 5 {
            ix.count as int
        } else {
            5
        },
    ensures
        r == decided::frauds_within(ix.labelled(), q, t),
{
    decided::lemma_votes_within(ix, q, t);
}

/// A search that is counted finds what one that is not counted finds, and its counters say how
/// many partitions hold records, are empty, and were searched or pruned, that no vector was
/// scanned and no node visited twice, and which partition the query belongs to.
pub proof fn law_counters_say_what_was_searched(
    ix: Index,
    q: QVec,
    stats: &mut SearchStats,
    r: u32,
    n: u32,
    key: u8,
)
    requires
        call_ensures(Index::search_exact_with_stats, (&ix, &q, stats), r),
        call_ensures(Index::search_exact, (&ix, &q), n),
        call_ensures(index::partition_key, (&q,), key),
        ix.sound(),
        ix.count <= u32::MAX,
    ensures
        r == n,
        final(stats).partition_key == key,
        ix.nodes@.len() > 0 && !ix.limits.primary_only ==> {
            &&& final(stats).partitions_considered == ix.filled(256)
            &&& final(stats).empty_partitions == 256 - ix.filled(256)
        },
        ix.nodes@.len() > 0 && ix.unlimited() ==> final(stats).partitions_searched
            + final(stats).partitions_pruned == ix.filled(256),
        final(stats).vectors_scanned <= ix.count,
        ix.nodes@.len() == 0 ==> final(stats).vectors_scanned == ix.count
            && final(stats).nodes_visited == 0,
        final(stats).stage8_pruned + final(stats).full_scanned <= final(stats).vectors_scanned,
        ix.unshared() && ix.nodes@.len() <= u32::MAX ==> {
            &&& final(stats).nodes_visited <= ix.nodes@.len()
            &&& final(stats).nodes_pruned + final(stats).leaves_scanned
                <= final(stats).nodes_visited
        },
{
    lemma_counts(ix, q);
    lemma_small_counts_are_shown(*final(stats), ix.run(q));
}

/// Counters show counts that fit as they are.
pub proof fn lemma_small_counts_are_shown(stats: SearchStats, st: Progress)
    requires
        search::shows(stats, st),
    ensures
        st.tally.considered <= u32::MAX ==> stats.partitions_considered == st.tally.considered,
        st.tally.searched <= u32::MAX ==> stats.partitions_searched == st.tally.searched,
        st.tally.pruned <= u32::MAX ==> stats.partitions_pruned == st.tally.pruned,
        st.tally.empty <= u32::MAX ==> stats.empty_partitions == st.tally.empty,
        st.tally.visited <= u32::MAX ==> stats.nodes_visited == st.tally.visited,
        st.tally.node_pruned <= u32::MAX ==> stats.nodes_pruned == st.tally.node_pruned,
        st.tally.leaves <= u32::MAX ==> stats.leaves_scanned == st.tally.leaves,
        st.tally.vectors <= u32::MAX ==> stats.vectors_scanned == st.tally.vectors,
        st.tally.stage8 <= u32::MAX ==> stats.stage8_pruned == st.tally.stage8,
        st.tally.full <= u32::MAX ==> stats.full_scanned == st.tally.full,
{
}

proof fn lemma_counts(ix: Index, q: QVec)
    requires
        ix.sound(),
    ensures
        ({
            let t = ix.run(q).tally;
            &&& t.vectors <= ix.count
            &&& t.stage8 + t.full <= t.vectors
            &&& t.node_pruned + t.leaves <= t.visited
            &&& ix.filled(256) <= 256
            &&& ix.nodes@.len() > 0 && !ix.limits.primary_only ==> {
                &&& t.considered == ix.filled(256)
                &&& t.empty == 256 - ix.filled(256)
                &&& ix.unlimited() ==> t.searched + t.pruned == ix.filled(256)
            }
            &&& ix.unshared() ==> t.visited <= ix.nodes@.len()
            &&& ix.nodes@.len() == 0 ==> t.vectors == ix.count && t.visited == 0
        }),
{
    tallies::law_counters_are_consistent(ix, q);
    tallies::law_no_vector_is_scanned_twice(ix, q);
    tallies::lemma_filled_bound(ix, 256);
    if ix.nodes@.len() > 0 && !ix.limits.primary_only {
        tallies::law_partitions_are_accounted_for(ix, q);
    }
    if ix.unshared() {
        tallies::law_no_node_is_visited_twice(ix, q);
    }
    if ix.nodes@.len() == 0 {
        tallies::lemma_plain_scan(ix, q);
    }
}

} // verus!
