//! What a search reaches under its limits and in which order, and what its counters say of it.
use crate::distance;
use crate::exact;
use crate::index;
use crate::index::{PartitionMeta, QVec};
use crate::measures;
use crate::search;
use crate::search::{Index, SearchStats};
use crate::tallies;
use crate::top5;
use crate::traversal::{Neighbor, Progress, Tally, MAX_LEVELS};
use vstd::prelude::*;

verus! {

/// The two indexes differ in their limits at most.
pub open spec fn same_records(a: Index, b: Index) -> bool {
    &&& a.vectors@ == b.vectors@
    &&& a.labels@ == b.labels@
    &&& a.count == b.count
    &&& a.partitions@ == b.partitions@
    &&& a.nodes@ == b.nodes@
}

proof fn lemma_same_scan(a: Index, b: Index, q: QVec, lo: int, hi: int, st: Progress)
    requires
        same_records(a, b),
    ensures
        a.scan_ids(q, lo, hi, st) == b.scan_ids(q, lo, hi, st),
    decreases hi - lo,
{
    if lo < hi {
        lemma_same_scan(a, b, q, lo, hi - 1, st);
    }
}

proof fn lemma_same_visit(a: Index, b: Index, q: QVec, i: int, h: nat, st: Progress)
    requires
        same_records(a, b),
    ensures
        a.visit(q, i, h, st) == b.visit(q, i, h, st),
    decreases h,
{
    if h > 0 {
        let node = a.nodes@[i];
        let seen = st.count_visited();
        let k = (h - 1) as nat;
        let l = node.left as int;
        let r = node.right as int;
        lemma_same_scan(
            a,
            b,
            q,
            node.start as int,
            node.start + node.count,
            seen.count_leaf().count_vectors(node.count as nat),
        );
        if node.left >= 0 {
            lemma_same_visit(a, b, q, l, k, seen);
            lemma_same_visit(a, b, q, r, k, seen);
            lemma_same_visit(a, b, q, l, k, a.visit(q, r, k, seen));
            lemma_same_visit(a, b, q, r, k, a.visit(q, l, k, seen));
        }
    }
}

proof fn lemma_same_open(a: Index, b: Index, q: QVec, p: PartitionMeta, st: Progress)
    requires
        same_records(a, b),
    ensures
        a.open_partition(q, p, st) == b.open_partition(q, p, st),
{
    let next = st.count_searched();
    lemma_same_scan(
        a,
        b,
        q,
        p.start as int,
        p.start + p.count,
        next.count_vectors(p.count as nat),
    );
    lemma_same_visit(a, b, q, p.root as int, MAX_LEVELS as nat, next);
}

proof fn lemma_nothing_opened(ix: Index, q: QVec, key: int, k: nat, st: Progress)
    requires
        ix.limits.max_extra_partitions == Some(0u32),
    ensures
        ix.weigh_below(q, key, k, st).top == st.top,
    decreases k,
{
    if k > 0 {
        lemma_nothing_opened(ix, q, key, (k - 1) as nat, st);
    }
}

proof fn lemma_same_votes(a: Index, b: Index, x: Progress, y: Progress)
    requires
        same_records(a, b),
        x.top == y.top,
    ensures
        a.votes(x) == b.votes(y),
{
    assert(Seq::new(5, |i: int| a.fraud(x.top[i].id)) =~= Seq::new(
        5,
        |i: int| b.fraud(y.top[i].id),
    ));
}

/// To open no other partition is to search the query's own one only.
pub proof fn law_no_other_partition_is_the_primary_alone(
    a: Index,
    b: Index,
    q: QVec,
    x: u32,
    y: u32,
)
    requires
        call_ensures(Index::search_exact, (&a, &q), x),
        call_ensures(Index::search_exact, (&b, &q), y),
        same_records(a, b),
        a.limits.max_extra_partitions == Some(0u32),
        b.limits.primary_only,
    ensures
        x == y,
{
    if a.nodes@.len() == 0 {
        lemma_same_scan(
            a,
            b,
            q,
            0,
            a.count as int,
            Progress::start().count_vectors(a.count as nat),
        );
    } else {
        let key = index::key_of(q);
        let p = a.partitions@[key];
        lemma_same_open(a, b, q, p, a.begun(key));
        lemma_nothing_opened(a, q, key, 256, a.open_partition(q, p, a.begun(key)));
    }
    lemma_same_votes(a, b, a.run(q), b.run(q));
}

proof fn lemma_all_opened(a: Index, b: Index, q: QVec, key: int, k: nat, st: Progress, n: u32)
    requires
        same_records(a, b),
        a.limits.max_extra_partitions == Some(n),
        b.limits.max_extra_partitions is None,
        0 <= key < 256,
        k <= 256,
        n >= 255,
        st.tally.extra == 0,
    ensures
        a.weigh_below(q, key, k, st) == b.weigh_below(q, key, k, st),
        a.weigh_below(q, key, k, st).tally.extra <= k - if key < k {
            1int
        } else {
            0
        },
    decreases k,
{
    if k > 0 {
        let before = a.weigh_below(q, key, (k - 1) as nat, st);
        lemma_all_opened(a, b, q, key, (k - 1) as nat, st, n);
        let p = a.partitions@[k - 1];
        let next = before.count_considered().count_extra();
        lemma_same_open(a, b, q, p, next);
        tallies::lemma_open_counts(a, q, p, next);
    }
}

/// To open all the others is to search without a limit.
pub proof fn law_all_other_partitions_are_no_limit(
    a: Index,
    b: Index,
    q: QVec,
    x: u32,
    y: u32,
    n: u32,
)
    requires
        call_ensures(Index::search_exact, (&a, &q), x),
        call_ensures(Index::search_exact, (&b, &q), y),
        same_records(a, b),
        a.limits.primary_only == b.limits.primary_only,
        a.limits.max_extra_partitions == Some(n),
        b.limits.max_extra_partitions is None,
        n >= 255,
    ensures
        x == y,
{
    if a.nodes@.len() == 0 {
        lemma_same_scan(
            a,
            b,
            q,
            0,
            a.count as int,
            Progress::start().count_vectors(a.count as nat),
        );
    } else {
        let key = index::key_of(q);
        let p = a.partitions@[key];
        lemma_same_open(a, b, q, p, a.begun(key));
        tallies::lemma_open_counts(a, q, p, a.begun(key));
        lemma_all_opened(a, b, q, key, 256, a.open_partition(q, p, a.begun(key)), n);
    }
    lemma_same_votes(a, b, a.run(q), b.run(q));
}

/// A limit is kept and used up: the query's own partition is searched, where it holds records,
/// and at most so many others; and a partition that holds records is neither searched nor ruled
/// out only where that many others were searched.
pub proof fn law_limit_is_kept_and_used_up(
    ix: Index,
    q: QVec,
    stats: &mut SearchStats,
    r: u32,
    key: u8,
    n: u32,
)
    requires
        call_ensures(Index::search_exact_with_stats, (&ix, &q, stats), r),
        call_ensures(index::partition_key, (&q,), key),
        ix.nodes@.len() > 0,
        !ix.limits.primary_only,
        ix.limits.max_extra_partitions == Some(n),
    ensures
        ({
            let own = if ix.partitions@[key as int].count != 0 {
                1int
            } else {
                0
            };
            let searched = final(stats).partitions_searched;
            let weighed = searched + final(stats).partitions_pruned;
            &&& own <= searched <= own + n
            &&& weighed <= ix.filled(256)
            &&& weighed < ix.filled(256) ==> searched == own + n
        }),
{
    tallies::lemma_limit_is_used_up(ix, q, n);
    tallies::lemma_filled_bound(ix, 256);
    measures::lemma_small_counts_are_shown(*final(stats), ix.run(q));
}

/// The vectors before `n` that are at most `d` away from `q`.
pub open spec fn nearer_before(ix: Index, q: QVec, n: nat, d: int) -> nat
    decreases n,
{
    if n == 0 {
        0
    } else {
        nearer_before(ix, q, (n - 1) as nat, d) + if exact::squared_distance(
            q,
            ix.vectors@[n - 1],
        ) <= d {
            1nat
        } else {
            0
        }
    }
}

/// Vector `i` is compared to the end: with eight coordinates fewer than five before it are as
/// near.
pub open spec fn is_compared_in_full(ix: Index, q: QVec, i: int) -> bool {
    nearer_before(ix, q, i as nat, measures::apart_at_second(q, ix.vectors@[i])) < 5
}

/// Vector `i` is given up with eight coordinates: with four fewer than five before it are as
/// near, but not with eight.
pub open spec fn is_given_up_second(ix: Index, q: QVec, i: int) -> bool {
    &&& nearer_before(ix, q, i as nat, measures::apart_at_first(q, ix.vectors@[i])) < 5
    &&& !is_compared_in_full(ix, q, i)
}

/// How many of the numbers before `n` are as `f` says.
pub open spec fn how_many(n: nat, f: spec_fn(int) -> bool) -> nat
    decreases n,
{
    if n == 0 {
        0
    } else {
        how_many((n - 1) as nat, f) + if f(n - 1) {
            1nat
        } else {
            0
        }
    }
}

/// One for yes, zero for no.
pub open spec fn one_if(b: bool) -> int {
    if b {
        1
    } else {
        0
    }
}

/// How many places are taken within `d`.
spec fn taken_within(top: Seq<Neighbor>, d: int) -> int {
    one_if(top[0].dist <= d) + one_if(top[1].dist <= d) + one_if(top[2].dist <= d) + one_if(
        top[3].dist <= d,
    ) + one_if(top[4].dist <= d)
}

spec fn is_ordered(top: Seq<Neighbor>) -> bool {
    &&& top.len() == 5
    &&& top[0].dist <= top[1].dist <= top[2].dist <= top[3].dist <= top[4].dist
}

proof fn lemma_offered(st: Progress, d: int, id: int)
    requires
        is_ordered(st.top),
    ensures
        is_ordered(st.offer(d, id).top),
        st.offer(d, id).tally == st.tally,
        forall|e: int|
            #![trigger taken_within(st.offer(d, id).top, e)]
            taken_within(st.offer(d, id).top, e) == if d <= e && taken_within(st.top, e) < 5 {
                taken_within(st.top, e) + 1
            } else {
                taken_within(st.top, e)
            },
{
    let next = st.offer(d, id).top;
    if d < st.worst() {
        let dists = Seq::new(5, |i: int| st.top[i].dist);
        let p = top5::slot(dists, d, 4) as int;
        exact::lemma_slot_splits(dists, d, 4);
        assert(forall|i: int| 0 <= i < p ==> next[i] == st.top[i]);
        assert(next[p] == Neighbor { dist: d, id });
        assert(forall|i: int| p < i < 5 ==> next[i] == st.top[i - 1]);
        assert(p > 0 ==> dists[p - 1] <= d);
        assert(p < 4 ==> dists[p] > d);
        assert(p == 0 || p == 1 || p == 2 || p == 3 || p == 4);
    }
}

proof fn lemma_plain_stages(ix: Index, q: QVec, n: nat, st: Progress)
    requires
        q.in_domain(),
        n <= ix.count,
        forall|id: int| 0 <= id < ix.count ==> (#[trigger] ix.vector(id)).in_domain(),
        st.top == Progress::start().top,
    ensures
        ({
            let end = ix.scan_ids(q, 0, n as int, st);
            &&& is_ordered(end.top)
            &&& forall|d: int|
                d < i32::MAX ==> #[trigger] taken_within(end.top, d) == if nearer_before(
                    ix,
                    q,
                    n,
                    d,
                ) < 5 {
                    nearer_before(ix, q, n, d) as int
                } else {
                    5
                }
            &&& end.tally.full == st.tally.full + how_many(
                n,
                |i: int| is_compared_in_full(ix, q, i),
            )
            &&& end.tally.stage8 == st.tally.stage8 + how_many(
                n,
                |i: int| is_given_up_second(ix, q, i),
            )
        }),
    decreases n,
{
    if n > 0 {
        let k = (n - 1) as nat;
        let id = n - 1;
        let before = ix.scan_ids(q, 0, id, st);
        let v = ix.vector(id);
        lemma_plain_stages(ix, q, k, st);
        assert(v.in_domain());
        measures::lemma_stages_in_domain(q, v);
        let first = measures::apart_at_first(q, v);
        let second = measures::apart_at_second(q, v);
        assert(first < before.worst() <==> taken_within(before.top, first) < 5);
        assert(second < before.worst() <==> taken_within(before.top, second) < 5);
        let far = exact::squared_distance(q, v);
        let offered = before.offer(far, id);
        lemma_offered(before, far, id);
        lemma_offered(before.count_full(), far, id);
        let end = ix.scan_one(q, id, before);
        exact::law_staging_is_safe(ix, q, id, before);
        assert(end.top == offered.top);
        assert forall|d: int| d < i32::MAX implies #[trigger] taken_within(end.top, d)
            == if nearer_before(ix, q, n, d) < 5 {
            nearer_before(ix, q, n, d) as int
        } else {
            5
        } by {
            assert(taken_within(offered.top, d) == taken_within(end.top, d));
        }
    }
}

/// Without trees every vector is scanned in its order, and the counters say how many were given
/// up with eight coordinates and how many were compared to the end.
pub proof fn law_plain_scan_counts_its_stages(
    ix: Index,
    q: QVec,
    stats: &mut SearchStats,
    r: u32,
)
    requires
        call_ensures(Index::search_exact_with_stats, (&ix, &q, stats), r),
        ix.sound(),
        ix.nodes@.len() == 0,
        ix.count <= u32::MAX,
        q.in_domain(),
    ensures
        final(stats).vectors_scanned == ix.count,
        final(stats).full_scanned == how_many(
            ix.count as nat,
            |i: int| is_compared_in_full(ix, q, i),
        ),
        final(stats).stage8_pruned == how_many(
            ix.count as nat,
            |i: int| is_given_up_second(ix, q, i),
        ),
{
    let base = Progress::start().count_vectors(ix.count as nat);
    lemma_plain_stages(ix, q, ix.count as nat, base);
    tallies::lemma_plain_scan(ix, q);
    tallies::law_counters_are_consistent(ix, q);
}

/// The frauds among the vectors `lo .. hi`.
pub open spec fn frauds_between(ix: Index, lo: int, hi: int) -> nat
    decreases hi - lo,
{
    if lo >= hi {
        0
    } else {
        frauds_between(ix, lo, hi - 1) + if ix.labels@[hi - 1] != 0 {
            1nat
        } else {
            0
        }
    }
}

proof fn lemma_frauds_split(ix: Index, lo: int, mid: int, hi: int)
    requires
        lo <= mid <= hi,
    ensures
        frauds_between(ix, lo, hi) == frauds_between(ix, lo, mid) + frauds_between(ix, mid, hi),
    decreases hi - mid,
{
    if mid < hi {
        lemma_frauds_split(ix, lo, mid, hi - 1);
    }
}

/// The nodes of the tree below node `i`.
pub open spec fn nodes_below(ix: Index, i: int, h: nat) -> nat
    decreases h,
{
    if h == 0 {
        0
    } else if ix.nodes@[i].left < 0 {
        1
    } else {
        1 + nodes_below(ix, ix.nodes@[i].left as int, (h - 1) as nat) + nodes_below(
            ix,
            ix.nodes@[i].right as int,
            (h - 1) as nat,
        )
    }
}

/// The leaves of the tree below node `i`.
pub open spec fn leaves_below(ix: Index, i: int, h: nat) -> nat
    decreases h,
{
    if h == 0 {
        0
    } else if ix.nodes@[i].left < 0 {
        1
    } else {
        leaves_below(ix, ix.nodes@[i].left as int, (h - 1) as nat) + leaves_below(
            ix,
            ix.nodes@[i].right as int,
            (h - 1) as nat,
        )
    }
}

/// Every leaf holds something.
pub open spec fn leaves_are_filled(ix: Index) -> bool {
    forall|i: int|
        0 <= i < ix.nodes@.len() && (#[trigger] ix.nodes@[i]).left < 0 ==> ix.nodes@[i].count > 0
}

/// The places from `m` on are free.
spec fn free_from(st: Progress, m: int) -> bool {
    &&& st.top.len() == 5
    &&& forall|i: int|
        m <= i < 5 ==> #[trigger] st.top[i] == (Neighbor { dist: i32::MAX as int, id: -1 })
}

proof fn lemma_five_votes(s: Seq<bool>)
    requires
        s.len() == 5,
    ensures
        top5::count_set(s) == one_if(s[0]) + one_if(s[1]) + one_if(s[2]) + one_if(s[3]) + one_if(
            s[4],
        ),
{
    reveal_with_fuel(top5::count_set, 6);
    let a = s.drop_last();
    let b = a.drop_last();
    let c = b.drop_last();
    let d = c.drop_last();
    assert(top5::count_set(s) == top5::count_set(a) + one_if(s[4]));
    assert(top5::count_set(a) == top5::count_set(b) + one_if(s[3]));
    assert(top5::count_set(b) == top5::count_set(c) + one_if(s[2]));
    assert(top5::count_set(c) == top5::count_set(d) + one_if(s[1]));
    assert(top5::count_set(d) == one_if(s[0]));
}

proof fn lemma_offer_to_free(ix: Index, st: Progress, m: int, d: int, id: int)
    requires
        free_from(st, m),
        0 <= m <= 4,
        d < i32::MAX,
        id >= 0,
    ensures
        free_from(st.offer(d, id), m + 1),
        st.offer(d, id).tally == st.tally,
        ix.votes(st.offer(d, id)) == ix.votes(st) + one_if(ix.labels@[id] != 0),
{
    let next = st.offer(d, id).top;
    let dists = Seq::new(5, |i: int| st.top[i].dist);
    let p = top5::slot(dists, d, 4) as int;
    exact::lemma_slot_splits(dists, d, 4);
    assert(st.top[4].id == -1 && st.top[4].dist == i32::MAX);
    assert(forall|i: int| 0 <= i < p ==> next[i] == st.top[i]);
    assert(next[p] == Neighbor { dist: d, id });
    assert(forall|i: int| p < i < 5 ==> next[i] == st.top[i - 1]);
    if p > m {
        assert(dists[p - 1] == st.top[p - 1].dist);
    }
    assert forall|i: int| m + 1 <= i < 5 implies #[trigger] next[i] == (Neighbor {
        dist: i32::MAX as int,
        id: -1,
    }) by {
        assert(next[i] == st.top[i - 1]);
    }
    lemma_five_votes(Seq::new(5, |i: int| ix.fraud(st.top[i].id)));
    lemma_five_votes(Seq::new(5, |i: int| ix.fraud(next[i].id)));
    assert(p == 0 || p == 1 || p == 2 || p == 3 || p == 4);
}

proof fn lemma_scan_to_free(ix: Index, q: QVec, lo: int, hi: int, st: Progress, m: int)
    requires
        free_from(st, m),
        0 <= m,
        0 <= lo <= hi <= ix.count,
        m + (hi - lo) <= 4,
        q.in_domain(),
        forall|id: int| 0 <= id < ix.count ==> (#[trigger] ix.vector(id)).in_domain(),
    ensures
        ({
            let end = ix.scan_ids(q, lo, hi, st);
            &&& free_from(end, m + (hi - lo))
            &&& ix.votes(end) == ix.votes(st) + frauds_between(ix, lo, hi)
            &&& end.tally == (Tally { full: (st.tally.full + (hi - lo)) as nat, ..st.tally })
        }),
    decreases hi - lo,
{
    if lo < hi {
        let id = hi - 1;
        let before = ix.scan_ids(q, lo, id, st);
        let v = ix.vector(id);
        lemma_scan_to_free(ix, q, lo, id, st, m);
        assert(v.in_domain());
        measures::lemma_stages_in_domain(q, v);
        assert(before.top[4].dist == i32::MAX);
        let counted = before.count_full();
        assert(free_from(counted, m + (id - lo)));
        assert(ix.votes(counted) == ix.votes(before));
        lemma_offer_to_free(
            ix,
            counted,
            m + (id - lo),
            distance::distance(q, v),
            id,
        );
    }
}

proof fn lemma_holds_something(ix: Index, i: int, h: nat, lo: int, hi: int)
    requires
        ix.covers(i, h, lo, hi),
        leaves_are_filled(ix),
    ensures
        0 <= lo < hi <= ix.count,
        ix.boxed(ix.nodes@[i].bbox_min, ix.nodes@[i].bbox_max, lo, hi),
        leaves_below(ix, i, h) <= hi - lo,
        nodes_below(ix, i, h) <= 2 * (hi - lo) - 1,
    decreases h,
{
    let node = ix.nodes@[i];
    if node.left >= 0 {
        let mid = lo + ix.extent(node.left as int, (h - 1) as nat);
        lemma_holds_something(ix, node.left as int, (h - 1) as nat, lo, mid);
        lemma_holds_something(ix, node.right as int, (h - 1) as nat, mid, hi);
    }
}

proof fn lemma_box_is_reached(
    ix: Index,
    q: QVec,
    bmin: QVec,
    bmax: QVec,
    lo: int,
    hi: int,
)
    requires
        0 <= lo < hi <= ix.count,
        ix.boxed(bmin, bmax, lo, hi),
        q.in_domain(),
        forall|id: int| 0 <= id < ix.count ==> (#[trigger] ix.vector(id)).in_domain(),
    ensures
        distance::box_distance(q, bmin, bmax) < i32::MAX,
{
    let v = ix.vector(lo);
    assert(v.in_domain());
    exact::law_box_bound_is_lower(q, v, bmin, bmax);
    exact::law_distance_is_euclidean(q, v);
}

/// What visiting a tree adds to the tally, where nothing is ruled out.
spec fn visited_all(ix: Index, i: int, h: nat, n: int, t: Tally) -> Tally {
    Tally {
        visited: t.visited + nodes_below(ix, i, h),
        leaves: t.leaves + leaves_below(ix, i, h),
        vectors: (t.vectors + n) as nat,
        full: (t.full + n) as nat,
        ..t
    }
}

proof fn lemma_visit_to_free(
    ix: Index,
    q: QVec,
    i: int,
    h: nat,
    lo: int,
    hi: int,
    st: Progress,
    m: int,
)
    requires
        free_from(st, m),
        0 <= m,
        m + (hi - lo) <= 4,
        ix.covers(i, h, lo, hi),
        leaves_are_filled(ix),
        q.in_domain(),
        forall|id: int| 0 <= id < ix.count ==> (#[trigger] ix.vector(id)).in_domain(),
    ensures
        ({
            let end = ix.visit(q, i, h, st);
            &&& free_from(end, m + (hi - lo))
            &&& ix.votes(end) == ix.votes(st) + frauds_between(ix, lo, hi)
            &&& end.tally == visited_all(ix, i, h, hi - lo, st.tally)
        }),
    decreases h,
{
    let node = ix.nodes@[i];
    let seen = st.count_visited();
    lemma_holds_something(ix, i, h, lo, hi);
    lemma_box_is_reached(ix, q, node.bbox_min, node.bbox_max, lo, hi);
    assert(st.top[4].dist == i32::MAX);
    assert(free_from(seen, m));
    assert(ix.votes(seen) == ix.votes(st));
    if node.left < 0 {
        let base = seen.count_leaf().count_vectors(node.count as nat);
        assert(free_from(base, m));
        assert(ix.votes(base) == ix.votes(st));
        lemma_scan_to_free(ix, q, lo, hi, base, m);
    } else {
        let k = (h - 1) as nat;
        let l = node.left as int;
        let r = node.right as int;
        let mid = lo + ix.extent(l, k);
        lemma_holds_something(ix, l, k, lo, mid);
        lemma_holds_something(ix, r, k, mid, hi);
        lemma_box_is_reached(ix, q, ix.nodes@[l].bbox_min, ix.nodes@[l].bbox_max, lo, mid);
        lemma_box_is_reached(ix, q, ix.nodes@[r].bbox_min, ix.nodes@[r].bbox_max, mid, hi);
        lemma_frauds_split(ix, lo, mid, hi);
        if ix.node_bound(q, l) < ix.node_bound(q, r) {
            let near = ix.visit(q, l, k, seen);
            lemma_visit_to_free(ix, q, l, k, lo, mid, seen, m);
            lemma_visit_to_free(ix, q, r, k, mid, hi, near, m + (mid - lo));
        } else {
            let near = ix.visit(q, r, k, seen);
            lemma_visit_to_free(ix, q, r, k, mid, hi, seen, m);
            lemma_visit_to_free(ix, q, l, k, lo, mid, near, m + (hi - mid));
        }
    }
}

/// The nodes of the tree of a partition.
pub open spec fn tree_size(ix: Index, p: PartitionMeta) -> nat {
    if p.count == 0 || p.root < 0 {
        0
    } else {
        nodes_below(ix, p.root as int, 128)
    }
}

/// The leaves of the tree of a partition.
pub open spec fn leaf_count(ix: Index, p: PartitionMeta) -> nat {
    if p.count == 0 || p.root < 0 {
        0
    } else {
        leaves_below(ix, p.root as int, 128)
    }
}

/// The frauds of a partition.
pub open spec fn frauds_of(ix: Index, p: PartitionMeta) -> nat {
    frauds_between(ix, p.start as int, p.start + p.count)
}

/// How many partitions below `k` hold records, but for partition `key`.
pub open spec fn others_below(ix: Index, key: int, k: nat) -> nat
    decreases k,
{
    if k == 0 {
        0
    } else {
        others_below(ix, key, (k - 1) as nat) + if k - 1 != key && ix.partitions@[k - 1].count
            != 0 {
            1nat
        } else {
            0
        }
    }
}

/// Partition `k` is one of the first that may be opened beside partition `key`.
pub open spec fn in_reach(ix: Index, key: int, k: int) -> bool {
    &&& k != key
    &&& ix.partitions@[k].count != 0
    &&& ix.limits.max_extra_partitions matches Some(n) ==> others_below(ix, key, k as nat) < n
}

/// The sum of `f` over partition `key` and over those in reach below `k`.
pub open spec fn over_reach(
    ix: Index,
    key: int,
    k: nat,
    f: spec_fn(PartitionMeta) -> nat,
) -> nat
    decreases k,
{
    if k == 0 {
        f(ix.partitions@[key])
    } else {
        over_reach(ix, key, (k - 1) as nat, f) + if in_reach(ix, key, k - 1) {
            f(ix.partitions@[k - 1])
        } else {
            0
        }
    }
}

spec fn size_of(p: PartitionMeta) -> nat {
    p.count as nat
}

spec fn is_filled(p: PartitionMeta) -> nat {
    if p.count == 0 {
        0
    } else {
        1
    }
}

/// What the search has after the partitions below `k`, where nothing is ruled out.
spec fn reached_all(ix: Index, key: int, k: nat, st: Progress) -> bool {
    let size = over_reach(ix, key, k, |p: PartitionMeta| size_of(p));
    &&& free_from(st, size as int)
    &&& ix.votes(st) == over_reach(ix, key, k, |p: PartitionMeta| frauds_of(ix, p))
    &&& st.tally.searched == over_reach(ix, key, k, |p: PartitionMeta| is_filled(p))
    &&& st.tally.visited == over_reach(ix, key, k, |p: PartitionMeta| tree_size(ix, p))
    &&& st.tally.leaves == over_reach(ix, key, k, |p: PartitionMeta| leaf_count(ix, p))
    &&& st.tally.vectors == size
    &&& st.tally.full == size
    &&& st.tally.pruned == 0
    &&& st.tally.node_pruned == 0
    &&& st.tally.stage8 == 0
    &&& st.tally.visited <= 2 * size
    &&& st.tally.leaves <= size
}

/// What opening partition `p` adds, where nothing is ruled out.
proof fn lemma_open_to_free(ix: Index, q: QVec, k: int, st: Progress, m: int)
    requires
        free_from(st, m),
        0 <= m,
        0 <= k < 256,
        m + ix.partitions@[k].count <= 4,
        ix.partition_covers(k),
        leaves_are_filled(ix),
        q.in_domain(),
        forall|id: int| 0 <= id < ix.count ==> (#[trigger] ix.vector(id)).in_domain(),
    ensures
        ({
            let p = ix.partitions@[k];
            let end = ix.open_partition(q, p, st);
            &&& free_from(end, m + p.count)
            &&& ix.votes(end) == ix.votes(st) + frauds_of(ix, p)
            &&& end.tally == (Tally {
                searched: st.tally.searched + is_filled(p),
                visited: st.tally.visited + tree_size(ix, p),
                leaves: st.tally.leaves + leaf_count(ix, p),
                vectors: st.tally.vectors + p.count as nat,
                full: st.tally.full + p.count as nat,
                ..st.tally
            })
            &&& tree_size(ix, p) <= 2 * p.count
            &&& leaf_count(ix, p) <= p.count
        }),
{
    let p = ix.partitions@[k];
    let lo = p.start as int;
    let hi = p.start + p.count;
    let next = st.count_searched();
    if p.count == 0 {
    } else if p.root < 0 {
        let base = next.count_vectors(p.count as nat);
        assert(free_from(base, m));
        assert(ix.votes(base) == ix.votes(st));
        lemma_scan_to_free(ix, q, lo, hi, base, m);
    } else {
        assert(free_from(next, m));
        assert(ix.votes(next) == ix.votes(st));
        lemma_holds_something(ix, p.root as int, 128, lo, hi);
        lemma_visit_to_free(ix, q, p.root as int, MAX_LEVELS as nat, lo, hi, next, m);
    }
}

/// The partitions in reach below `k` hold together no more than all below `k`.
proof fn lemma_reach_fits(ix: Index, key: int, k: nat)
    requires
        0 <= key < 256,
        k <= 256,
    ensures
        over_reach(ix, key, k, |p: PartitionMeta| size_of(p)) <= tallies::sizes_below(ix, k)
            + if key < k {
            0nat
        } else {
            ix.partitions@[key].count as nat
        },
        tallies::sizes_below(ix, k) + if key < k {
            0nat
        } else {
            ix.partitions@[key].count as nat
        } <= tallies::sizes_below(ix, 256),
    decreases k,
{
    lemma_sizes_grow(ix, key, k);
    if k > 0 {
        lemma_reach_fits(ix, key, (k - 1) as nat);
    }
}

proof fn lemma_sizes_grow(ix: Index, key: int, k: nat)
    requires
        0 <= key < 256,
        k <= 256,
    ensures
        tallies::sizes_below(ix, k) + if key < k {
            0nat
        } else {
            ix.partitions@[key].count as nat
        } <= tallies::sizes_below(ix, 256),
    decreases 256 - k,
{
    if k < 256 {
        lemma_sizes_grow(ix, key, k + 1);
    }
}

proof fn lemma_weigh_to_free(ix: Index, q: QVec, key: int, k: nat, st: Progress)
    requires
        reached_all(ix, key, 0, st),
        st.tally.extra == 0,
        0 <= key < 256,
        k <= 256,
        ix.sound(),
        ix.nodes@.len() > 0,
        ix.count < 5,
        leaves_are_filled(ix),
        q.in_domain(),
    ensures
        reached_all(ix, key, k, ix.weigh_below(q, key, k, st)),
        ix.weigh_below(q, key, k, st).tally.extra <= others_below(ix, key, k),
        match ix.limits.max_extra_partitions {
            Some(n) => ix.weigh_below(q, key, k, st).tally.extra == if others_below(ix, key, k)
                < n {
                others_below(ix, key, k)
            } else {
                n as nat
            },
            None => true,
        },
    decreases k,
{
    if k > 0 {
        let j = k - 1;
        let before = ix.weigh_below(q, key, j as nat, st);
        lemma_weigh_to_free(ix, q, key, j as nat, st);
        let p = ix.partitions@[j];
        let size = over_reach(ix, key, j as nat, |p: PartitionMeta| size_of(p));
        tallies::lemma_sizes_bound(ix);
        lemma_reach_fits(ix, key, k);
        lemma_reach_fits(ix, key, j as nat);
        if j != key && p.count != 0 {
            assert(ix.partition_covers(j));
            lemma_box_is_reached(ix, q, p.bbox_min, p.bbox_max, p.start as int, p.start + p.count);
            assert(before.top[4].dist == i32::MAX);
            assert(ix.may_open(before) == in_reach(ix, key, j));
            let base = before.count_considered();
            if in_reach(ix, key, j) {
                let next = base.count_extra();
                assert(free_from(next, size as int));
                assert(ix.votes(next) == ix.votes(before));
                lemma_open_to_free(ix, q, j, next, size as int);
            } else {
                assert(free_from(base, size as int));
                assert(ix.votes(base) == ix.votes(before));
            }
        } else if j != key {
            let next = before.count_empty();
            assert(free_from(next, size as int));
            assert(ix.votes(next) == ix.votes(before));
        }
    }
}

/// Where there are fewer than five vectors nothing is ruled out, so that a search goes through
/// the query's own partition and through the first others that it may open, from the lowest on:
/// it counts all their frauds, and its counters say how many these partitions are and how many
/// nodes, leaves and vectors they have.
pub proof fn law_few_vectors_are_all_reached(
    ix: Index,
    q: QVec,
    stats: &mut SearchStats,
    r: u32,
    key: u8,
)
    requires
        call_ensures(Index::search_exact_with_stats, (&ix, &q, stats), r),
        call_ensures(index::partition_key, (&q,), key),
        ix.sound(),
        ix.nodes@.len() > 0,
        !ix.limits.primary_only,
        ix.count < 5,
        leaves_are_filled(ix),
        q.in_domain(),
    ensures
        r == over_reach(ix, key as int, 256, |p: PartitionMeta| frauds_of(ix, p)),
        final(stats).partitions_searched == over_reach(
            ix,
            key as int,
            256,
            |p: PartitionMeta|
                if p.count == 0 {
                    0nat
                } else {
                    1
                },
        ),
        final(stats).nodes_visited == over_reach(
            ix,
            key as int,
            256,
            |p: PartitionMeta| tree_size(ix, p),
        ),
        final(stats).leaves_scanned == over_reach(
            ix,
            key as int,
            256,
            |p: PartitionMeta| leaf_count(ix, p),
        ),
        final(stats).vectors_scanned == over_reach(
            ix,
            key as int,
            256,
            |p: PartitionMeta| p.count as nat,
        ),
        final(stats).full_scanned == final(stats).vectors_scanned,
        final(stats).partitions_pruned == 0,
        final(stats).nodes_pruned == 0,
        final(stats).stage8_pruned == 0,
{
    let k = index::key_of(q);
    let start = Progress::start();
    let begun = ix.begun(k);
    let p = ix.partitions@[k];
    assert(ix.partition_covers(k));
    tallies::lemma_sizes_bound(ix);
    lemma_reach_fits(ix, k, 0);
    lemma_reach_fits(ix, k, 256);
    assert(free_from(begun, 0));
    lemma_five_votes(Seq::new(5, |i: int| ix.fraud(begun.top[i].id)));
    lemma_open_to_free(ix, q, k, begun, 0);
    let primary = ix.open_partition(q, p, begun);
    assert(reached_all(ix, k, 0, primary));
    lemma_weigh_to_free(ix, q, k, 256, primary);
    tallies::lemma_filled_bound(ix, 256);
    tallies::law_partitions_are_accounted_for(ix, q);
    tallies::law_counters_are_consistent(ix, q);
    measures::lemma_small_counts_are_shown(*final(stats), ix.run(q));
    assert((|p: PartitionMeta| size_of(p)) =~= (|p: PartitionMeta| p.count as nat));
    assert((|p: PartitionMeta| is_filled(p)) =~= (|p: PartitionMeta|
        if p.count == 0 {
            0nat
        } else {
            1
        }));
}

/// No node has children.
pub open spec fn nodes_are_leaves(ix: Index) -> bool {
    forall|i: int| 0 <= i < ix.nodes@.len() ==> (#[trigger] ix.nodes@[i]).left < 0
}

/// Every partition that holds records has a tree.
pub open spec fn filled_have_trees(ix: Index) -> bool {
    forall|k: int|
        0 <= k < 256 && (#[trigger] ix.partitions@[k]).count != 0 ==> 0 <= ix.partitions@[k].root
            < ix.nodes@.len()
}

/// Every search of a partition visited one node, which was scanned or ruled out.
spec fn nodes_add_up(t: Tally) -> bool {
    t.visited == t.searched && t.visited == t.leaves + t.node_pruned
}

proof fn lemma_open_adds_up(ix: Index, q: QVec, k: int, st: Progress)
    requires
        nodes_add_up(st.tally),
        nodes_are_leaves(ix),
        filled_have_trees(ix),
        0 <= k < 256,
    ensures
        nodes_add_up(ix.open_partition(q, ix.partitions@[k], st).tally),
{
    let p = ix.partitions@[k];
    if p.count != 0 {
        let node = ix.nodes@[p.root as int];
        tallies::lemma_scan_counts(
            ix,
            q,
            node.start as nat,
            node.count as nat,
            st.count_searched().count_visited().count_leaf(),
        );
    }
}

proof fn lemma_weigh_adds_up(ix: Index, q: QVec, key: int, k: nat, st: Progress)
    requires
        nodes_add_up(st.tally),
        nodes_are_leaves(ix),
        filled_have_trees(ix),
        k <= 256,
    ensures
        nodes_add_up(ix.weigh_below(q, key, k, st).tally),
    decreases k,
{
    if k > 0 {
        let before = ix.weigh_below(q, key, (k - 1) as nat, st);
        lemma_weigh_adds_up(ix, q, key, (k - 1) as nat, st);
        lemma_open_adds_up(ix, q, k - 1, before.count_considered().count_extra());
    }
}

/// Where every partition is a single leaf, a search visits one node for each partition that it
/// searches, and counts that node as scanned or as ruled out.
pub proof fn law_visited_leaves_are_scanned_or_ruled_out(
    ix: Index,
    q: QVec,
    stats: &mut SearchStats,
    r: u32,
)
    requires
        call_ensures(Index::search_exact_with_stats, (&ix, &q, stats), r),
        ix.nodes@.len() > 0,
        nodes_are_leaves(ix),
        filled_have_trees(ix),
    ensures
        final(stats).nodes_visited == final(stats).partitions_searched,
        final(stats).nodes_visited == final(stats).leaves_scanned + final(stats).nodes_pruned,
{
    let key = index::key_of(q);
    let begun = ix.begun(key);
    lemma_open_adds_up(ix, q, key, begun);
    let primary = ix.open_partition(q, ix.partitions@[key], begun);
    lemma_weigh_adds_up(ix, q, key, 256, primary);
    tallies::lemma_searched_bound(ix, q);
    measures::lemma_small_counts_are_shown(*final(stats), ix.run(q));
}

/// `after` is `n` further than `before`; behind the greatest number comes zero.
pub open spec fn is_further(before: u32, after: u32, n: u32) -> bool {
    after == before + n || after == before + n - 0x1_0000_0000
}

/// What is counted of partitions counts in its own counter and in no other.
pub proof fn law_partitions_have_counters_of_their_own(
    a: &mut SearchStats,
    b: &mut SearchStats,
    c: &mut SearchStats,
    d: &mut SearchStats,
)
    requires
        call_ensures(search::stats_partition_considered, (a,), ()),
        call_ensures(search::stats_partition_searched, (b,), ()),
        call_ensures(search::stats_partition_pruned, (c,), ()),
        call_ensures(search::stats_empty_partition, (d,), ()),
    ensures
        is_further(old(a).partitions_considered, final(a).partitions_considered, 1),
        *final(a) == (SearchStats {
            partitions_considered: final(a).partitions_considered,
            ..*old(a)
        }),
        is_further(old(b).partitions_searched, final(b).partitions_searched, 1),
        *final(b) == (SearchStats { partitions_searched: final(b).partitions_searched, ..*old(b) }),
        is_further(old(c).partitions_pruned, final(c).partitions_pruned, 1),
        *final(c) == (SearchStats { partitions_pruned: final(c).partitions_pruned, ..*old(c) }),
        is_further(old(d).empty_partitions, final(d).empty_partitions, 1),
        *final(d) == (SearchStats { empty_partitions: final(d).empty_partitions, ..*old(d) }),
{
}

/// What is counted of nodes counts in its own counter and in no other.
pub proof fn law_nodes_have_counters_of_their_own(
    a: &mut SearchStats,
    b: &mut SearchStats,
    c: &mut SearchStats,
)
    requires
        call_ensures(search::stats_node_visited, (a,), ()),
        call_ensures(search::stats_node_pruned, (b,), ()),
        call_ensures(search::stats_leaf_scanned, (c,), ()),
    ensures
        is_further(old(a).nodes_visited, final(a).nodes_visited, 1),
        *final(a) == (SearchStats { nodes_visited: final(a).nodes_visited, ..*old(a) }),
        is_further(old(b).nodes_pruned, final(b).nodes_pruned, 1),
        *final(b) == (SearchStats { nodes_pruned: final(b).nodes_pruned, ..*old(b) }),
        is_further(old(c).leaves_scanned, final(c).leaves_scanned, 1),
        *final(c) == (SearchStats { leaves_scanned: final(c).leaves_scanned, ..*old(c) }),
{
}

/// What is counted of vectors counts in its own counter and in no other.
pub proof fn law_vectors_have_counters_of_their_own(
    a: &mut SearchStats,
    b: &mut SearchStats,
    v: &mut SearchStats,
    n: u32,
    k: &mut SearchStats,
    key: u8,
)
    requires
        call_ensures(search::stats_stage8_pruned, (a,), ()),
        call_ensures(search::stats_full_scanned, (b,), ()),
        call_ensures(search::stats_vectors_scanned, (v, n), ()),
        call_ensures(search::stats_set_key, (k, key), ()),
    ensures
        is_further(old(a).stage8_pruned, final(a).stage8_pruned, 1),
        *final(a) == (SearchStats { stage8_pruned: final(a).stage8_pruned, ..*old(a) }),
        is_further(old(b).full_scanned, final(b).full_scanned, 1),
        *final(b) == (SearchStats { full_scanned: final(b).full_scanned, ..*old(b) }),
        is_further(old(v).vectors_scanned, final(v).vectors_scanned, n),
        *final(v) == (SearchStats { vectors_scanned: final(v).vectors_scanned, ..*old(v) }),
        *final(k) == (SearchStats { partition_key: key, ..*old(k) }),
{
}

/// A node goes on top of the stack if its bound beats the worst distance and there is room for
/// it among 128.
pub proof fn law_promising_node_goes_on_top(
    stack: &mut [u32; MAX_LEVELS],
    sp: &mut usize,
    idx: u32,
    lb: i32,
    worst: i32,
)
    requires
        call_ensures(search::push_if_promising, (stack, sp, idx, lb, worst), ()),
    ensures
        lb < worst && *old(sp) < 128 ==> *final(sp) == *old(sp) + 1 && final(stack)@
            == old(stack)@.update(*old(sp) as int, idx),
        lb >= worst || *old(sp) >= 128 ==> *final(sp) == *old(sp) && final(stack)@ == old(stack)@,
{
}

/// The vectors `lo .. hi` that are at most `d` away from `q`.
pub open spec fn nearer_between(ix: Index, q: QVec, lo: int, hi: int, d: int) -> nat
    decreases hi - lo,
{
    if lo >= hi {
        0
    } else {
        nearer_between(ix, q, lo, hi - 1, d) + if exact::squared_distance(q, ix.vectors@[hi - 1])
            <= d {
            1nat
        } else {
            0
        }
    }
}

proof fn lemma_taken_after_scan(ix: Index, q: QVec, lo: int, hi: int, st: Progress, d: int)
    requires
        q.in_domain(),
        0 <= lo <= hi <= ix.count,
        forall|id: int| 0 <= id < ix.count ==> (#[trigger] ix.vector(id)).in_domain(),
        st.top == Progress::start().top,
        d < i32::MAX,
    ensures
        ({
            let end = ix.scan_ids(q, lo, hi, st);
            &&& is_ordered(end.top)
            &&& taken_within(end.top, d) == if nearer_between(ix, q, lo, hi, d) < 5 {
                nearer_between(ix, q, lo, hi, d) as int
            } else {
                5
            }
        }),
    decreases hi - lo,
{
    if lo < hi {
        let id = hi - 1;
        let before = ix.scan_ids(q, lo, id, st);
        let v = ix.vector(id);
        lemma_taken_after_scan(ix, q, lo, id, st, d);
        assert(v.in_domain());
        measures::lemma_stages_in_domain(q, v);
        let far = exact::squared_distance(q, v);
        lemma_offered(before, far, id);
        exact::law_staging_is_safe(ix, q, id, before);
        let end = ix.scan_one(q, id, before);
        assert(end.top == before.offer(far, id).top);
        assert(taken_within(before.offer(far, id).top, d) == taken_within(end.top, d));
    }
}

/// Only partition `key` holds records.
pub open spec fn is_alone(ix: Index, key: int) -> bool {
    forall|k: int| 0 <= k < 256 && k != key ==> (#[trigger] ix.partitions@[k]).count == 0
}

proof fn lemma_others_are_empty(ix: Index, q: QVec, key: int, k: nat, st: Progress)
    requires
        is_alone(ix, key),
        k <= 256,
    ensures
        ({
            let t = ix.weigh_below(q, key, k, st).tally;
            &&& t.visited == st.tally.visited
            &&& t.node_pruned == st.tally.node_pruned
            &&& t.leaves == st.tally.leaves
            &&& t.vectors == st.tally.vectors
        }),
    decreases k,
{
    if k > 0 {
        lemma_others_are_empty(ix, q, key, (k - 1) as nat, st);
        if k - 1 != key {
            assert(ix.partitions@[k - 1].count == 0);
        }
    }
}

/// The leaf that is scanned first: the left one if it is nearer than the right one.
spec fn front(ix: Index, q: QVec, i: int) -> int {
    let l = ix.nodes@[i].left as int;
    let r = ix.nodes@[i].right as int;
    if ix.node_bound(q, l) < ix.node_bound(q, r) {
        l
    } else {
        r
    }
}

proof fn lemma_leaf_in_front(ix: Index, q: QVec, i: int, lo: int, hi: int, st: Progress)
    requires
        ix.covers(i, 128, lo, hi),
        q.in_domain(),
        forall|id: int| 0 <= id < ix.count ==> (#[trigger] ix.vector(id)).in_domain(),
        st.top == Progress::start().top,
        ix.nodes@[i].left >= 0,
        ({
            let l = ix.nodes@[i].left as int;
            let r = ix.nodes@[i].right as int;
            let near = front(ix, q, i);
            let far = l + r - near;
            let n = ix.nodes@[near];
            &&& ix.nodes@[l].left < 0 && ix.nodes@[r].left < 0
            &&& ix.nodes@[l].count > 0 && ix.nodes@[r].count > 0
            &&& nearer_between(
                ix,
                q,
                n.start as int,
                n.start + n.count,
                ix.node_bound(q, far),
            ) >= 5
        }),
    ensures
        ({
            let t = ix.visit(q, i, 128, st).tally;
            &&& t.visited == st.tally.visited + 3
            &&& t.node_pruned == st.tally.node_pruned + 1
            &&& t.leaves == st.tally.leaves + 1
            &&& t.vectors == st.tally.vectors + ix.nodes@[front(ix, q, i)].count
        }),
{
    let l = ix.nodes@[i].left as int;
    let r = ix.nodes@[i].right as int;
    let near = front(ix, q, i);
    let far = l + r - near;
    let mid = lo + ix.extent(l, 127);
    assert(ix.covers(l, 127, lo, mid) && ix.covers(r, 127, mid, hi));
    let seen = st.count_visited();
    let n = ix.nodes@[near];
    let f = ix.nodes@[far];
    lemma_box_is_reached(ix, q, ix.nodes@[i].bbox_min, ix.nodes@[i].bbox_max, lo, hi);
    lemma_box_is_reached(ix, q, ix.nodes@[l].bbox_min, ix.nodes@[l].bbox_max, lo, mid);
    lemma_box_is_reached(ix, q, ix.nodes@[r].bbox_min, ix.nodes@[r].bbox_max, mid, hi);
    let first = seen.count_visited().count_leaf();
    let after = ix.visit(q, near, 127, seen);
    assert(after == ix.scan(q, n.start as nat, n.count as nat, first));
    tallies::lemma_scan_counts(ix, q, n.start as nat, n.count as nat, first);
    tallies::lemma_scan_counts_vectors(ix, q, n.start as nat, n.count as nat, first);
    lemma_taken_after_scan(
        ix,
        q,
        n.start as int,
        n.start + n.count,
        first.count_vectors(n.count as nat),
        ix.node_bound(q, far),
    );
    assert(ix.visit(q, far, 127, after) == after.count_visited().count_node_pruned());
    assert(ix.visit(q, i, 128, st) == ix.visit(q, far, 127, after));
}

/// Of two leaves the nearer one is scanned first, and of two that are as near the right one;
/// where it has five vectors that are as near as the bound of the other, the other is ruled out.
pub proof fn law_nearer_leaf_is_scanned_first(
    ix: Index,
    q: QVec,
    stats: &mut SearchStats,
    r: u32,
    key: u8,
    left: i32,
    right: i32,
)
    requires
        call_ensures(Index::search_exact_with_stats, (&ix, &q, stats), r),
        call_ensures(index::partition_key, (&q,), key),
        ix.sound(),
        ix.nodes@.len() > 0,
        is_alone(ix, key as int),
        ix.partitions@[key as int].count > 0,
        ix.partitions@[key as int].root >= 0,
        q.in_domain(),
        ({
            let node = ix.nodes@[ix.partitions@[key as int].root as int];
            let a = ix.nodes@[node.left as int];
            let b = ix.nodes@[node.right as int];
            let n = if left < right {
                a
            } else {
                b
            };
            let bound = if left < right {
                right
            } else {
                left
            };
            &&& node.left >= 0
            &&& call_ensures(distance::lower_bound, (&q, &a.bbox_min, &a.bbox_max), left)
            &&& call_ensures(distance::lower_bound, (&q, &b.bbox_min, &b.bbox_max), right)
            &&& a.left < 0 && a.count > 0
            &&& b.left < 0 && b.count > 0
            &&& nearer_between(ix, q, n.start as int, n.start + n.count, bound as int) >= 5
        }),
    ensures
        ({
            let node = ix.nodes@[ix.partitions@[key as int].root as int];
            let n = ix.nodes@[if left < right {
                node.left as int
            } else {
                node.right as int
            }];
            &&& final(stats).vectors_scanned == n.count
            &&& final(stats).leaves_scanned == 1
            &&& final(stats).nodes_visited == 3
            &&& final(stats).nodes_pruned == 1
        }),
{
    let k = index::key_of(q);
    let p = ix.partitions@[k];
    let i = p.root as int;
    assert(ix.partition_covers(k));
    let begun = ix.begun(k).count_searched();
    lemma_leaf_in_front(ix, q, i, p.start as int, p.start + p.count, begun);
    let primary = ix.open_partition(q, p, ix.begun(k));
    assert(primary == ix.visit(q, i, 128, begun));
    lemma_others_are_empty(ix, q, k, 256, primary);
    measures::lemma_small_counts_are_shown(*final(stats), ix.run(q));
}

/// Vector `a` comes before vector `b`: it is nearer to `q`, or as near and the first of the two.
pub open spec fn comes_before(ix: Index, q: QVec, a: int, b: int) -> bool {
    let (c, d) = (
        exact::squared_distance(q, ix.vectors@[a]),
        exact::squared_distance(q, ix.vectors@[b]),
    );
    c < d || c == d && a < b
}

/// Vector `id` has one of the places.
pub open spec fn has_place(places: Seq<int>, id: int) -> bool {
    exists|i: int| 0 <= i < places.len() && #[trigger] places[i] == id
}

/// The five places have, in their order, the vectors below `n` that come before all others;
/// where there are fewer the last places have none, which is `-1`.
pub open spec fn are_first_five(ix: Index, q: QVec, n: int, places: Seq<int>) -> bool {
    &&& places.len() == 5
    &&& forall|i: int| 0 <= i < 5 ==> -1 <= #[trigger] places[i] < n
    &&& forall|i: int, j: int|
        #![trigger places[i], places[j]]
        0 <= i < j < 5 && places[j] >= 0 ==> places[i] >= 0 && comes_before(
            ix,
            q,
            places[i],
            places[j],
        )
    &&& forall|id: int|
        0 <= id < n ==> #[trigger] has_place(places, id) || places[4] >= 0 && comes_before(
            ix,
            q,
            places[4],
            id,
        )
}

/// The vector, if there is one, is labelled as fraud.
pub open spec fn marked(ix: Index, id: int) -> int {
    if id >= 0 && ix.labels@[id] != 0 {
        1
    } else {
        0
    }
}

spec fn ids(top: Seq<Neighbor>) -> Seq<int> {
    Seq::new(5, |i: int| top[i].id)
}

/// The neighbours are the first five of the vectors below `n`, with their distances.
spec fn holds_first_five(ix: Index, q: QVec, n: int, top: Seq<Neighbor>) -> bool {
    &&& top.len() == 5
    &&& are_first_five(ix, q, n, ids(top))
    &&& forall|i: int|
        0 <= i < 5 ==> (#[trigger] top[i]).dist == if top[i].id == -1 {
            i32::MAX as int
        } else {
            exact::squared_distance(q, ix.vectors@[top[i].id])
        }
}

proof fn lemma_first_five_grow(ix: Index, q: QVec, n: int, st: Progress)
    requires
        holds_first_five(ix, q, n, st.top),
        0 <= n < ix.count,
        exact::squared_distance(q, ix.vectors@[n]) < i32::MAX,
        forall|id: int|
            0 <= id < n ==> exact::squared_distance(q, #[trigger] ix.vectors@[id]) < i32::MAX,
    ensures
        holds_first_five(
            ix,
            q,
            n + 1,
            st.offer(exact::squared_distance(q, ix.vectors@[n]), n).top,
        ),
{
    let d = exact::squared_distance(q, ix.vectors@[n]);
    let old_top = st.top;
    let new_top = st.offer(d, n).top;
    let a = ids(old_top);
    let b = ids(new_top);
    assert(forall|i: int| 0 <= i < 5 ==> a[i] == (#[trigger] old_top[i]).id);
    assert(forall|i: int| 0 <= i < 5 ==> b[i] == (#[trigger] new_top[i]).id);
    assert forall|i: int, j: int| 0 <= i <= j < 5 implies (#[trigger] old_top[i]).dist <= (
    #[trigger] old_top[j]).dist by {
        if i < j {
            if a[j] >= 0 {
                assert(a[i] >= 0 && comes_before(ix, q, a[i], a[j]));
            } else if a[i] >= 0 {
                assert(exact::squared_distance(q, ix.vectors@[a[i]]) < i32::MAX);
            }
        }
    }
    if d < st.worst() {
        let dists = Seq::new(5, |i: int| old_top[i].dist);
        let p = top5::slot(dists, d, 4) as int;
        exact::lemma_slot_splits(dists, d, 4);
        assert(forall|i: int| 0 <= i < p ==> new_top[i] == old_top[i]);
        assert(new_top[p] == Neighbor { dist: d, id: n });
        assert(forall|i: int| p < i < 5 ==> new_top[i] == old_top[i - 1]);
        assert forall|i: int| 0 <= i < p implies (#[trigger] old_top[i]).dist <= d && a[i]
            >= 0 by {
            assert(dists[p - 1] <= d);
            assert(old_top[i].dist <= old_top[p - 1].dist);
        }
        assert forall|i: int| p <= i < 5 implies (#[trigger] old_top[i]).dist > d by {
            if i < 4 {
                assert(dists[i] > d);
            }
        }
        assert forall|i: int| 0 <= i < 5 implies -1 <= #[trigger] b[i] < n + 1 by {
            if i < p {
                assert(a[i] < n);
            } else if i > p {
                assert(-1 <= a[i - 1] < n);
            }
        }
        assert forall|i: int, j: int|
            #![trigger b[i], b[j]]
            0 <= i < j < 5 && b[j] >= 0 implies b[i] >= 0 && comes_before(
            ix,
            q,
            b[i],
            b[j],
        ) by {
            if j < p {
                assert(a[i] >= 0 && comes_before(ix, q, a[i], a[j]));
            } else if j == p {
                assert(old_top[i].dist <= d && a[i] >= 0 && a[i] < n);
            } else if i < p {
                assert(b[j] == a[j - 1] && b[i] == a[i]);
                assert(a[i] >= 0 && comes_before(ix, q, a[i], a[j - 1]));
            } else if i == p {
                assert(b[j] == a[j - 1]);
                assert(old_top[j - 1].dist > d);
            } else {
                assert(b[j] == a[j - 1] && b[i] == a[i - 1]);
                assert(a[i - 1] >= 0 && comes_before(ix, q, a[i - 1], a[j - 1]));
            }
        }
        assert(a[4] >= 0 ==> b[4] >= 0 && comes_before(ix, q, b[4], a[4])) by {
            if a[4] >= 0 {
                if p == 4 {
                    assert(b[4] == n);
                } else {
                    assert(b[4] == a[3]);
                    assert(a[3] >= 0 && comes_before(ix, q, a[3], a[4]));
                }
            }
        }
        assert forall|id: int| 0 <= id < n + 1 implies #[trigger] has_place(b, id) || b[4] >= 0
            && comes_before(ix, q, b[4], id) by {
            if id == n {
                assert(b[p] == n);
            } else if has_place(a, id) {
                let k = choose|k: int| 0 <= k < a.len() && #[trigger] a[k] == id;
                if k < p {
                    assert(b[k] == id);
                } else if k < 4 {
                    assert(b[k + 1] == id);
                }
            } else {
                assert(a[4] >= 0 && comes_before(ix, q, a[4], id));
            }
        }
    } else {
        assert(new_top == old_top);
        assert(a[4] >= 0);
        assert(-1 <= a[4] < n);
        assert forall|i: int| 0 <= i < 5 implies -1 <= #[trigger] b[i] < n + 1 by {
            assert(a[i] < n);
        }
        assert(a =~= b);
        assert(comes_before(ix, q, a[4], n));
    }
}

proof fn lemma_first_five(ix: Index, q: QVec, n: int, st: Progress)
    requires
        q.in_domain(),
        0 <= n <= ix.count,
        forall|id: int| 0 <= id < ix.count ==> (#[trigger] ix.vector(id)).in_domain(),
        st.top == Progress::start().top,
    ensures
        holds_first_five(ix, q, n, ix.scan_ids(q, 0, n, st).top),
    decreases n,
{
    if n == 0 {
        let top = st.top;
        assert forall|i: int, j: int|
            #![trigger ids(top)[i], ids(top)[j]]
            0 <= i < j < 5 && ids(top)[j] >= 0 implies ids(top)[i] >= 0 && comes_before(
            ix,
            q,
            ids(top)[i],
            ids(top)[j],
        ) by {}
    } else {
        let id = n - 1;
        let before = ix.scan_ids(q, 0, id, st);
        lemma_first_five(ix, q, id, st);
        assert(ix.vector(id).in_domain());
        exact::law_distance_is_euclidean(q, ix.vector(id));
        assert forall|x: int| 0 <= x < id implies exact::squared_distance(
            q,
            #[trigger] ix.vectors@[x],
        ) < i32::MAX by {
            assert(ix.vector(x).in_domain());
            exact::law_distance_is_euclidean(q, ix.vector(x));
        }
        lemma_first_five_grow(ix, q, id, before);
        exact::law_staging_is_safe(ix, q, id, before);
    }
}

/// Without trees the vectors that vote are the five that come first, by their distance and among
/// those that are as near by their order.
pub proof fn law_plain_search_breaks_ties_by_order(ix: Index, q: QVec, r: u32)
    requires
        call_ensures(Index::search_exact, (&ix, &q), r),
        ix.sound(),
        ix.nodes@.len() == 0,
        q.in_domain(),
    ensures
        exists|places: Seq<int>| #[trigger]
            are_first_five(ix, q, ix.count as int, places) && r == marked(ix, places[0]) + marked(
                ix,
                places[1],
            ) + marked(ix, places[2]) + marked(ix, places[3]) + marked(ix, places[4]),
{
    let base = Progress::start().count_vectors(ix.count as nat);
    let end = ix.run(q);
    lemma_first_five(ix, q, ix.count as int, base);
    let places = ids(end.top);
    let flags = Seq::new(5, |i: int| ix.fraud(end.top[i].id));
    lemma_five_votes(flags);
    assert forall|i: int| 0 <= i < 5 implies one_if(#[trigger] flags[i]) == marked(
        ix,
        places[i],
    ) by {}
    assert(are_first_five(ix, q, ix.count as int, places));
}

/// Only the partitions `key` and `k` hold records.
pub open spec fn are_alone(ix: Index, key: int, k: int) -> bool {
    forall|j: int| 0 <= j < 256 && j != key && j != k ==> (#[trigger] ix.partitions@[j]).count == 0
}

/// Partition `p` is scanned from its first to its last record: it has no tree, or a single leaf.
pub open spec fn is_scanned_through(ix: Index, p: PartitionMeta) -> bool {
    p.root >= 0 ==> ix.nodes@[p.root as int].left < 0
}

proof fn lemma_own_partition(ix: Index, q: QVec, key: int, st: Progress, d: int)
    requires
        ix.sound(),
        ix.nodes@.len() > 0,
        q.in_domain(),
        0 <= key < 256,
        ix.partitions@[key].count > 0,
        is_scanned_through(ix, ix.partitions@[key]),
        st.top == Progress::start().top,
        d < i32::MAX,
    ensures
        ({
            let p = ix.partitions@[key];
            let end = ix.open_partition(q, p, st);
            &&& end.tally.searched == st.tally.searched + 1
            &&& end.tally.pruned == st.tally.pruned
            &&& end.tally.vectors == st.tally.vectors + p.count
            &&& d < end.worst() <==> nearer_between(ix, q, p.start as int, p.start + p.count, d) < 5
        }),
{
    let p = ix.partitions@[key];
    let lo = p.start as int;
    let hi = p.start + p.count;
    assert(ix.partition_covers(key));
    tallies::lemma_open_counts(ix, q, p, st);
    let next = st.count_searched();
    let base = if p.root < 0 {
        next
    } else {
        next.count_visited().count_leaf()
    };
    if p.root >= 0 {
        let node = ix.nodes@[p.root as int];
        assert(ix.covers(p.root as int, 128, lo, hi));
        lemma_box_is_reached(ix, q, node.bbox_min, node.bbox_max, lo, hi);
        assert(ix.visit(q, p.root as int, 128, next) == ix.scan(
            q,
            p.start as nat,
            p.count as nat,
            base,
        ));
    }
    assert(ix.open_partition(q, p, st) == ix.scan(q, p.start as nat, p.count as nat, base));
    tallies::lemma_scan_counts_vectors(ix, q, p.start as nat, p.count as nat, base);
    lemma_taken_after_scan(ix, q, lo, hi, base.count_vectors(p.count as nat), d);
}

proof fn lemma_other_partition(ix: Index, q: QVec, key: int, k: int, m: nat, st: Progress)
    requires
        are_alone(ix, key, k),
        0 <= k < 256,
        k != key,
        ix.partitions@[k].count > 0,
        ix.limits.max_extra_partitions is None,
        m <= 256,
    ensures
        ({
            let end = ix.weigh_below(q, key, m, st);
            let p = ix.partitions@[k];
            let out = distance::box_distance(q, p.bbox_min, p.bbox_max) >= st.worst();
            &&& m <= k ==> end.top == st.top
            &&& m <= k || out ==> end.tally.searched == st.tally.searched && end.tally.vectors
                == st.tally.vectors
            &&& m > k && !out ==> end.tally.searched == st.tally.searched + 1
            &&& end.tally.pruned == st.tally.pruned + if m > k && out {
                1int
            } else {
                0
            }
        }),
    decreases m,
{
    if m > 0 {
        let j = m - 1;
        lemma_other_partition(ix, q, key, k, j as nat, st);
        let before = ix.weigh_below(q, key, j as nat, st);
        if j == k {
            tallies::lemma_open_counts(
                ix,
                q,
                ix.partitions@[k],
                before.count_considered().count_extra(),
            );
        } else if j != key {
            assert(ix.partitions@[j].count == 0);
        }
    }
}

/// Another partition is ruled out if five vectors of the query's own one are as near as its
/// bound, and is searched otherwise.
pub proof fn law_far_partition_is_ruled_out(
    ix: Index,
    q: QVec,
    stats: &mut SearchStats,
    r: u32,
    key: u8,
    k: int,
    bound: i32,
)
    requires
        call_ensures(Index::search_exact_with_stats, (&ix, &q, stats), r),
        call_ensures(index::partition_key, (&q,), key),
        call_ensures(
            distance::lower_bound,
            (&q, &ix.partitions@[k].bbox_min, &ix.partitions@[k].bbox_max),
            bound,
        ),
        ix.sound(),
        ix.unlimited(),
        ix.nodes@.len() > 0,
        q.in_domain(),
        0 <= k < 256,
        k != key,
        are_alone(ix, key as int, k),
        ix.partitions@[k].count > 0,
        ix.partitions@[key as int].count > 0,
        is_scanned_through(ix, ix.partitions@[key as int]),
    ensures
        ({
            let p = ix.partitions@[key as int];
            let enough = nearer_between(ix, q, p.start as int, p.start + p.count, bound as int)
                >= 5;
            &&& final(stats).partitions_pruned == one_if(enough)
            &&& final(stats).partitions_searched == 2 - one_if(enough)
            &&& enough ==> final(stats).vectors_scanned == p.count
        }),
{
    let own = index::key_of(q);
    let p = ix.partitions@[own];
    let o = ix.partitions@[k];
    let begun = ix.begun(own);
    assert(ix.partition_covers(k));
    lemma_box_is_reached(ix, q, o.bbox_min, o.bbox_max, o.start as int, o.start + o.count);
    lemma_own_partition(ix, q, own, begun, bound as int);
    lemma_other_partition(ix, q, own, k, 256, ix.open_partition(q, p, begun));
    measures::lemma_small_counts_are_shown(*final(stats), ix.run(q));
}

} // verus!
