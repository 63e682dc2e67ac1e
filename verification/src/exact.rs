//! Why the search is exact.
use crate::distance;
use crate::index;
use crate::index::QVec;
use crate::search::Index;
use crate::top5;
use crate::traversal::{Neighbor, Progress, MAX_LEVELS};
use vstd::prelude::*;

verus! {

/// The squared difference in dimension `d`.
pub open spec fn axis(a: QVec, b: QVec, d: int) -> int {
    (a.at(d) - b.at(d)) * (a.at(d) - b.at(d))
}

/// The squared Euclidean distance over the first `n` dimensions.
pub open spec fn squared_distance_to(a: QVec, b: QVec, n: nat) -> int
    decreases n,
{
    if n == 0 {
        0
    } else {
        squared_distance_to(a, b, (n - 1) as nat) + axis(a, b, n - 1)
    }
}

/// The squared Euclidean distance.
pub open spec fn squared_distance(a: QVec, b: QVec) -> int {
    squared_distance_to(a, b, 16)
}

/// `lo .. hi`, as a set.
pub open spec fn range(lo: int, hi: int) -> Set<int> {
    Set::new(|id: int| lo <= id < hi)
}

/// `v` lies in the box `lo ..= hi`.
pub open spec fn inside(v: QVec, lo: QVec, hi: QVec) -> bool {
    forall|d: int| 0 <= d < 16 ==> lo.at(d) <= #[trigger] v.at(d) <= hi.at(d)
}

impl Index {
    /// The box holds the vectors `lo .. hi`.
    pub open spec fn boxed(self, bmin: QVec, bmax: QVec, lo: int, hi: int) -> bool {
        forall|id: int| lo <= id < hi ==> inside(#[trigger] self.vector(id), bmin, bmax)
    }

    /// The number of records below node `i`.
    pub open spec fn extent(self, i: int, h: nat) -> nat
        decreases h,
    {
        if h == 0 {
            0
        } else if self.nodes@[i].left < 0 {
            self.nodes@[i].count as nat
        } else {
            self.extent(self.nodes@[i].left as int, (h - 1) as nat) + self.extent(
                self.nodes@[i].right as int,
                (h - 1) as nat,
            )
        }
    }

    /// The tree below node `i` divides the vectors `lo .. hi` among its leaves, and the
    /// box of each node holds the vectors below it.
    pub open spec fn covers(self, i: int, h: nat, lo: int, hi: int) -> bool
        decreases h,
    {
        &&& h > 0
        &&& 0 <= i < self.nodes@.len()
        &&& 0 <= lo <= hi <= self.count
        &&& {
            let node = self.nodes@[i];
            &&& self.boxed(node.bbox_min, node.bbox_max, lo, hi)
            &&& if node.left < 0 {
                node.start == lo && node.start + node.count == hi
            } else {
                let mid = lo + self.extent(node.left as int, (h - 1) as nat);
                &&& self.covers(node.left as int, (h - 1) as nat, lo, mid)
                &&& self.covers(node.right as int, (h - 1) as nat, mid, hi)
            }
        }
    }

    /// The run of records that partition `k` holds.
    pub open spec fn run_of(self, k: int) -> Set<int> {
        let p = self.partitions@[k];
        range(p.start as int, p.start + p.count)
    }

    /// Partition `k` has a true box and, where it has a tree, a tree over its own records.
    pub open spec fn partition_covers(self, k: int) -> bool {
        let p = self.partitions@[k];
        let lo = p.start as int;
        let hi = p.start + p.count;
        p.count != 0 ==> {
            &&& hi <= self.count
            &&& self.boxed(p.bbox_min, p.bbox_max, lo, hi)
            &&& p.root >= 0 ==> self.covers(p.root as int, MAX_LEVELS as nat, lo, hi)
        }
    }

    /// Vector `id` lies in some partition.
    pub open spec fn held(self, id: int) -> bool {
        exists|k: int| 0 <= k < 256 && #[trigger] self.run_of(k).contains(id)
    }

    /// Every vector lies in exactly one partition.
    pub open spec fn partitioned(self) -> bool {
        &&& forall|id: int| 0 <= id < self.count ==> #[trigger] self.held(id)
        &&& forall|j: int, k: int|
            0 <= j < k < 256 ==> (#[trigger] self.run_of(j)).disjoint(#[trigger] self.run_of(k))
    }

    /// All that the exactness of a search rests on: an index that a builder makes has it.
    pub open spec fn sound(self) -> bool {
        &&& self.searchable()
        &&& forall|id: int| 0 <= id < self.count ==> (#[trigger] self.vector(id)).in_domain()
        &&& self.nodes@.len() > 0 ==> {
            &&& self.partitioned()
            &&& forall|k: int| 0 <= k < 256 ==> #[trigger] self.partition_covers(k)
        }
    }

    /// The search may reach every partition.
    pub open spec fn unlimited(self) -> bool {
        !self.limits.primary_only && self.limits.max_extra_partitions is None
    }

    /// `sel` is a choice of five nearest among the vectors `lo .. hi` (all of them, where there
    /// are fewer).
    pub open spec fn nearest_among(self, q: QVec, sel: Seq<int>, lo: int, hi: int) -> bool {
        &&& sel.len() == if hi - lo < 5 {
            hi - lo
        } else {
            5
        }
        &&& sel.no_duplicates()
        &&& forall|i: int| 0 <= i < sel.len() ==> lo <= #[trigger] sel[i] < hi
        &&& forall|i: int, id: int|
            0 <= i < sel.len() && lo <= id < hi && !sel.contains(id) ==> squared_distance(
                q,
                self.vector(#[trigger] sel[i]),
            ) <= squared_distance(q, #[trigger] self.vector(id))
    }

    /// `sel` is a choice of five nearest vectors (all of them, where there are fewer).
    pub open spec fn nearest(self, q: QVec, sel: Seq<int>) -> bool {
        self.nearest_among(q, sel, 0, self.count as int)
    }

    /// The number of frauds in a choice.
    pub open spec fn frauds(self, sel: Seq<int>) -> nat {
        top5::count_set(Seq::new(sel.len(), |i: int| self.fraud(sel[i])))
    }

    #[verifier::opaque]
    spec fn dist_to(self, q: QVec, id: int) -> int {
        distance::distance(q, self.vector(id))
    }

    /// The places hold the nearest of the vectors in `s`: what is not among them is not
    /// nearer than the worst.
    spec fn settled(self, q: QVec, st: Progress, s: Set<int>) -> bool {
        &&& st.top.len() == 5
        &&& forall|i: int, j: int| 0 <= i <= j < 5 ==> st.top[i].dist <= st.top[j].dist
        &&& forall|i: int|
            0 <= i < 5 ==> {
                ||| (#[trigger] st.top[i]).id == -1 && st.top[i].dist == i32::MAX
                ||| s.contains(st.top[i].id) && st.top[i].dist == self.dist_to(q, st.top[i].id)
            }
        &&& forall|i: int, j: int|
            0 <= i < j < 5 && st.top[i].id != -1 ==> st.top[i].id != st.top[j].id
        &&& forall|id: int| #[trigger]
            s.contains(id) ==> {
                ||| self.placed_at(st, id)
                ||| self.dist_to(q, id) >= st.worst()
            }
        &&& forall|id: int| #[trigger] s.contains(id) ==> 0 <= id < self.count
    }

    spec fn placed_at(self, st: Progress, id: int) -> bool {
        exists|i: int| 0 <= i < 5 && (#[trigger] st.top[i]).id == id
    }
}

/// Differences of coordinates in the domain fit, and their squares add up to less than
/// the largest distance: no distance between vectors in the domain overflows.
pub proof fn law_distance_is_euclidean(a: QVec, b: QVec)
    requires
        a.in_domain(),
        b.in_domain(),
    ensures
        distance::distance(a, b) == squared_distance(a, b),
        0 <= squared_distance(a, b) <= 2_000_000_000,
        0 <= distance::hot_bound(a, b) <= distance::mid_bound(a, b) <= distance::distance(a, b),
{
    lemma_unroll(a, b);
    lemma_lane(a, b, 0);
    lemma_lane(a, b, 1);
    lemma_lane(a, b, 2);
    lemma_lane(a, b, 3);
    lemma_lane(a, b, 4);
    lemma_lane(a, b, 5);
    lemma_lane(a, b, 6);
    lemma_lane(a, b, 7);
    lemma_lane(a, b, 8);
    lemma_lane(a, b, 9);
    lemma_lane(a, b, 10);
    lemma_lane(a, b, 11);
    lemma_lane(a, b, 12);
    lemma_lane(a, b, 13);
    lemma_lane(a, b, 14);
    lemma_lane(a, b, 15);
    lemma_stages(
        distance::hot_sum(a, b),
        distance::mid_sum(a, b),
        distance::cold_sum(a, b),
    );
}

proof fn lemma_stages(hot: int, mid: int, cold: int)
    requires
        0 <= hot,
        0 <= mid,
        0 <= cold,
        hot + mid + cold <= 2_000_000_000,
    ensures
        distance::wrap32(hot) == hot,
        distance::wrap32(hot + mid) == hot + mid,
        distance::wrap32(hot + mid + cold) == hot + mid + cold,
{
}

proof fn lemma_square_bound(x: int, m: int)
    by (nonlinear_arith)
    requires
        -m <= x <= m,
    ensures
        0 <= x * x <= m * m,
{
}

/// The largest squared difference in dimension `d`.
spec fn lane_limit(d: int) -> int {
    if d == 5 || d == 6 {
        400_000_000
    } else if d < 14 {
        100_000_000
    } else {
        0
    }
}

proof fn lemma_lane(a: QVec, b: QVec, d: int)
    requires
        a.in_domain(),
        b.in_domain(),
        0 <= d < 16,
    ensures
        distance::lane(a, b, d) == axis(a, b, d),
        0 <= axis(a, b, d) <= lane_limit(d),
{
    if d < 14 {
        assert(index::coordinate_in_domain(d, a.at(d)));
        assert(index::coordinate_in_domain(d, b.at(d)));
    }
    let x = a.at(d) - b.at(d);
    assert(distance::wrap16(x) == x);
    if d == 5 || d == 6 {
        lemma_square_bound(x, 20_000);
    } else if d < 14 {
        lemma_square_bound(x, 10_000);
    } else {
        lemma_square_bound(x, 0);
    }
}

proof fn lemma_unroll(a: QVec, b: QVec)
    ensures
        squared_distance(a, b) == axis(a, b, 0) + axis(a, b, 1) + axis(a, b, 2) + axis(a, b, 3)
            + axis(a, b, 4) + axis(a, b, 5) + axis(a, b, 6) + axis(a, b, 7) + axis(a, b, 8) + axis(
            a,
            b,
            9,
        ) + axis(a, b, 10) + axis(a, b, 11) + axis(a, b, 12) + axis(a, b, 13) + axis(a, b, 14)
            + axis(a, b, 15),
{
    reveal_with_fuel(squared_distance_to, 17);
}

proof fn lemma_gap(q: int, v: int, lo: int, hi: int)
    requires
        lo <= v <= hi,
        -0x7fff <= q - v <= 0x7fff,
    ensures
        0 <= distance::square(distance::gap(q, lo, hi)) <= distance::square(q - v),
{
    let below = distance::saturated(lo - q) as i16;
    let above = distance::saturated(q - hi) as i16;
    assert(below == 0 || above == 0);
    assert(below == 0 ==> (below | above) == above) by (bit_vector);
    assert(above == 0 ==> (below | above) == below) by (bit_vector);
    let g = distance::gap(q, lo, hi);
    let x = q - v;
    assert(0 <= g * g <= x * x) by (nonlinear_arith)
        requires
            -x <= g <= x || x <= g <= -x || (0 <= g <= x) || (0 <= g <= -x),
            g >= 0,
            g <= x || g <= -x,
    ;
}

/// The bound of a box is a lower bound: no vector of the domain in the box is nearer to a
/// query in the domain.
pub proof fn law_box_bound_is_lower(q: QVec, v: QVec, lo: QVec, hi: QVec)
    requires
        q.in_domain(),
        v.in_domain(),
        inside(v, lo, hi),
    ensures
        distance::box_distance(q, lo, hi) <= distance::distance(q, v),
{
    law_distance_is_euclidean(q, v);
    lemma_gap_sum(q, v, lo, hi, 16);
}

proof fn lemma_gap_sum(q: QVec, v: QVec, lo: QVec, hi: QVec, n: nat)
    requires
        q.in_domain(),
        v.in_domain(),
        inside(v, lo, hi),
        n <= 16,
    ensures
        0 <= distance::gap_sum(q, lo, hi, n) <= squared_distance_to(q, v, n),
    decreases n,
{
    if n > 0 {
        lemma_gap_sum(q, v, lo, hi, (n - 1) as nat);
        let d = n - 1;
        if d < 14 {
            assert(index::coordinate_in_domain(d, q.at(d)));
            assert(index::coordinate_in_domain(d, v.at(d)));
        }
        lemma_gap(q.at(d), v.at(d), lo.at(d), hi.at(d));
    }
}

/// Stopping a comparison at the hot or at the mid stage never changes the neighbours.
pub proof fn law_staging_is_safe(ix: Index, q: QVec, id: int, st: Progress)
    requires
        q.in_domain(),
        ix.vector(id).in_domain(),
    ensures
        ix.scan_one(q, id, st).top == st.offer(distance::distance(q, ix.vector(id)), id).top,
{
    law_distance_is_euclidean(q, ix.vector(id));
}

pub proof fn lemma_slot_splits(dists: Seq<int>, d: int, n: nat)
    ensures
        top5::slot(dists, d, n) <= n,
        top5::slot(dists, d, n) > 0 ==> dists[top5::slot(dists, d, n) - 1] <= d,
        forall|i: int| top5::slot(dists, d, n) <= i < n ==> dists[i] > d,
    decreases n,
{
    if n > 0 {
        lemma_slot_splits(dists, d, (n - 1) as nat);
    }
}

impl Index {
    proof fn lemma_offer_settles(self, q: QVec, st: Progress, s: Set<int>, id: int)
        requires
            self.settled(q, st, s),
            !s.contains(id),
            0 <= id < self.count,
        ensures
            self.settled(q, st.offer(self.dist_to(q, id), id), s.insert(id)),
    {
        let d = self.dist_to(q, id);
        let next = st.offer(d, id);
        let t = s.insert(id);
        if d < st.worst() {
            let dists = Seq::new(5, |i: int| st.top[i].dist);
            let p = top5::slot(dists, d, 4) as int;
            lemma_slot_splits(dists, d, 4);
            assert(forall|i: int| 0 <= i < p ==> dists[i] <= d);
            assert(forall|i: int| 0 <= i < p ==> next.top[i] == st.top[i]);
            assert(next.top[p] == Neighbor { dist: d, id });
            assert(forall|i: int| p < i < 5 ==> next.top[i] == st.top[i - 1]);
            assert forall|i: int| p <= i < 4 implies (#[trigger] st.top[i]).dist > d by {
                assert(dists[i] > d);
            }
            assert forall|i: int| 0 <= i < p implies (#[trigger] st.top[i]).dist <= d by {
                assert(dists[i] <= d);
            }
            assert forall|i: int, j: int| 0 <= i <= j < 5 implies next.top[i].dist
                <= next.top[j].dist by {}
            assert(next.worst() <= st.worst());
            assert forall|x: int| #[trigger] t.contains(x) implies {
                ||| self.placed_at(next, x)
                ||| self.dist_to(q, x) >= next.worst()
            } by {
                if x == id {
                    assert(next.top[p].id == x);
                } else if self.placed_at(st, x) {
                    let i = choose|i: int| 0 <= i < 5 && (#[trigger] st.top[i]).id == x;
                    if i < p {
                        assert(next.top[i].id == x);
                    } else if i < 4 {
                        assert(next.top[i + 1].id == x);
                    }
                }
            }
        }
    }

    proof fn lemma_same_top_settled(self, q: QVec, a: Progress, b: Progress, s: Set<int>)
        requires
            self.settled(q, a, s),
            a.top == b.top,
        ensures
            self.settled(q, b, s),
    {
        assert forall|id: int| self.placed_at(a, id) implies self.placed_at(b, id) by {
            let i = choose|i: int| 0 <= i < 5 && (#[trigger] a.top[i]).id == id;
            assert(b.top[i].id == id);
        }
    }

    /// What a bound rules out is settled.
    proof fn lemma_ruled_out(self, q: QVec, st: Progress, s: Set<int>, lo: int, hi: int)
        requires
            self.settled(q, st, s),
            0 <= lo <= hi <= self.count,
            forall|id: int|
                lo <= id < hi ==> #[trigger] self.dist_to(q, id) >= st.worst(),
        ensures
            self.settled(q, st, s.union(range(lo, hi))),
    {
        let t = s.union(range(lo, hi));
        assert forall|id: int| #[trigger] t.contains(id) implies {
            ||| self.placed_at(st, id)
            ||| self.dist_to(q, id) >= st.worst()
        } by {
            if !s.contains(id) {
                assert(lo <= id < hi);
            }
        }
    }

    proof fn lemma_scan_settles(self, q: QVec, lo: int, hi: int, st: Progress, s: Set<int>)
        requires
            self.settled(q, st, s),
            q.in_domain(),
            0 <= lo <= hi <= self.count,
            forall|id: int| 0 <= id < self.count ==> (#[trigger] self.vector(id)).in_domain(),
            s.disjoint(range(lo, hi)),
        ensures
            self.settled(q, self.scan_ids(q, lo, hi, st), s.union(range(lo, hi))),
        decreases hi - lo,
    {
        if lo == hi {
            assert(s.union(range(lo, hi)) =~= s);
        } else {
            let id = hi - 1;
            assert(s.disjoint(range(lo, id))) by {
                assert forall|x: int| s.contains(x) implies !range(lo, id).contains(x) by {
                    assert(!range(lo, hi).contains(x));
                }
            }
            self.lemma_scan_settles(q, lo, id, st, s);
            let before = self.scan_ids(q, lo, id, st);
            let t = s.union(range(lo, id));
            assert(range(lo, hi).contains(id));
            assert(!s.contains(id));
            assert(self.vector(id).in_domain());
            self.lemma_offer_settles(q, before, t, id);
            law_staging_is_safe(self, q, id, before);
            assert(t.insert(id) =~= s.union(range(lo, hi)));
            reveal(Index::dist_to);
            self.lemma_same_top_settled(
                q,
                before.offer(self.dist_to(q, id), id),
                self.scan_one(q, id, before),
                t.insert(id),
            );
        }
    }

    proof fn lemma_box_rules_out(
        self,
        q: QVec,
        bmin: QVec,
        bmax: QVec,
        lo: int,
        hi: int,
        st: Progress,
        s: Set<int>,
    )
        requires
            self.settled(q, st, s),
            q.in_domain(),
            0 <= lo <= hi <= self.count,
            forall|id: int| 0 <= id < self.count ==> (#[trigger] self.vector(id)).in_domain(),
            self.boxed(bmin, bmax, lo, hi),
            distance::box_distance(q, bmin, bmax) >= st.worst(),
        ensures
            self.settled(q, st, s.union(range(lo, hi))),
    {
        assert forall|id: int| lo <= id < hi implies #[trigger] self.dist_to(q, id)
            >= st.worst() by {
            reveal(Index::dist_to);
            law_box_bound_is_lower(q, self.vector(id), bmin, bmax);
        }
        self.lemma_ruled_out(q, st, s, lo, hi);
    }

    proof fn lemma_visit_settles(
        self,
        q: QVec,
        i: int,
        h: nat,
        lo: int,
        hi: int,
        st: Progress,
        s: Set<int>,
    )
        requires
            self.settled(q, st, s),
            q.in_domain(),
            forall|id: int| 0 <= id < self.count ==> (#[trigger] self.vector(id)).in_domain(),
            self.covers(i, h, lo, hi),
            s.disjoint(range(lo, hi)),
        ensures
            self.settled(q, self.visit(q, i, h, st), s.union(range(lo, hi))),
        decreases h,
    {
        let node = self.nodes@[i];
        let seen = st.count_visited();
        let all = s.union(range(lo, hi));
        self.lemma_same_top_settled(q, st, seen, s);
        if self.node_bound(q, i) >= seen.worst() {
            self.lemma_box_rules_out(q, node.bbox_min, node.bbox_max, lo, hi, seen, s);
            self.lemma_same_top_settled(q, seen, seen.count_node_pruned(), all);
        } else if node.left < 0 {
            let base = seen.count_leaf().count_vectors(node.count as nat);
            self.lemma_same_top_settled(q, seen, base, s);
            self.lemma_scan_settles(q, lo, hi, base, s);
        } else {
            let below = (h - 1) as nat;
            let mid = lo + self.extent(node.left as int, below);
            let left_first = self.node_bound(q, node.left as int) < self.node_bound(
                q,
                node.right as int,
            );
            let near = if left_first { node.left as int } else { node.right as int };
            let far = if left_first { node.right as int } else { node.left as int };
            let (near_lo, near_hi) = if left_first { (lo, mid) } else { (mid, hi) };
            let (far_lo, far_hi) = if left_first { (mid, hi) } else { (lo, mid) };
            let near_set = range(near_lo, near_hi);
            let far_set = range(far_lo, far_hi);
            assert(self.covers(near, below, near_lo, near_hi));
            assert(self.covers(far, below, far_lo, far_hi));
            assert forall|x: int| s.contains(x) implies !near_set.contains(x)
                && !far_set.contains(x) by {
                assert(!range(lo, hi).contains(x));
            }
            assert(s.union(near_set).union(far_set) =~= all);
            assert(s.union(far_set).union(near_set) =~= all);
            let near_node = self.nodes@[near];
            let far_node = self.nodes@[far];
            if self.node_bound(q, far) < seen.worst() {
                let after_near = if self.node_bound(q, near) < seen.worst() {
                    self.visit(q, near, below, seen)
                } else {
                    seen
                };
                if self.node_bound(q, near) < seen.worst() {
                    self.lemma_visit_settles(q, near, below, near_lo, near_hi, seen, s);
                } else {
                    self.lemma_box_rules_out(
                        q,
                        near_node.bbox_min,
                        near_node.bbox_max,
                        near_lo,
                        near_hi,
                        seen,
                        s,
                    );
                }
                self.lemma_visit_settles(
                    q,
                    far,
                    below,
                    far_lo,
                    far_hi,
                    after_near,
                    s.union(near_set),
                );
            } else {
                self.lemma_box_rules_out(
                    q,
                    far_node.bbox_min,
                    far_node.bbox_max,
                    far_lo,
                    far_hi,
                    seen,
                    s,
                );
                if self.node_bound(q, near) < seen.worst() {
                    self.lemma_visit_settles(
                        q,
                        near,
                        below,
                        near_lo,
                        near_hi,
                        seen,
                        s.union(far_set),
                    );
                } else {
                    self.lemma_box_rules_out(
                        q,
                        near_node.bbox_min,
                        near_node.bbox_max,
                        near_lo,
                        near_hi,
                        seen,
                        s.union(far_set),
                    );
                }
            }
        }
    }

    proof fn lemma_open_settles(self, q: QVec, k: int, st: Progress, s: Set<int>)
        requires
            self.settled(q, st, s),
            q.in_domain(),
            forall|id: int| 0 <= id < self.count ==> (#[trigger] self.vector(id)).in_domain(),
            self.partition_covers(k),
            s.disjoint(self.run_of(k)),
        ensures
            self.settled(
                q,
                self.open_partition(q, self.partitions@[k], st),
                s.union(self.run_of(k)),
            ),
    {
        let p = self.partitions@[k];
        let lo = p.start as int;
        let hi = p.start + p.count;
        if p.count == 0 {
            assert(s.union(self.run_of(k)) =~= s);
        } else if p.root < 0 {
            let base = st.count_searched().count_vectors(p.count as nat);
            self.lemma_same_top_settled(q, st, base, s);
            self.lemma_scan_settles(q, lo, hi, base, s);
        } else {
            self.lemma_same_top_settled(q, st, st.count_searched(), s);
            self.lemma_visit_settles(
                q,
                p.root as int,
                MAX_LEVELS as nat,
                lo,
                hi,
                st.count_searched(),
                s,
            );
        }
    }

    /// The vectors of the partitions below `k`, and of partition `key`.
    spec fn held_below(self, key: int, k: int) -> Set<int> {
        Set::new(
            |id: int|
                self.run_of(key).contains(id) || exists|j: int|
                    0 <= j < k && #[trigger] self.run_of(j).contains(id),
        )
    }

    proof fn lemma_weigh_settles(self, q: QVec, key: int, k: nat, st: Progress)
        requires
            self.sound(),
            self.unlimited(),
            self.nodes@.len() > 0,
            q.in_domain(),
            0 <= key < 256,
            k <= 256,
            self.settled(q, st, self.run_of(key)),
        ensures
            self.settled(q, self.weigh_below(q, key, k, st), self.held_below(key, k as int)),
        decreases k,
    {
        if k == 0 {
            assert(self.held_below(key, 0) =~= self.run_of(key));
        } else {
            let j = k - 1;
            self.lemma_weigh_settles(q, key, j as nat, st);
            let before = self.weigh_below(q, key, j as nat, st);
            let s = self.held_below(key, j as int);
            let t = self.held_below(key, k as int);
            assert(t =~= s.union(self.run_of(j as int))) by {
                assert forall|id: int| t.contains(id) implies s.union(
                    self.run_of(j as int),
                ).contains(id) by {
                    if !self.run_of(key).contains(id) {
                        let m = choose|m: int| 0 <= m < k && #[trigger] self.run_of(m).contains(id);
                        assert(m < j || m == j);
                    }
                }
            }
            if j == key {
                assert(t =~= s);
            } else {
                let p = self.partitions@[j as int];
                assert(self.partition_covers(j as int));
                assert forall|id: int| s.contains(id) implies !self.run_of(j as int).contains(
                    id,
                ) by {
                    if self.run_of(key).contains(id) {
                        if key < j {
                            assert(self.run_of(key).disjoint(self.run_of(j as int)));
                        } else {
                            assert(self.run_of(j as int).disjoint(self.run_of(key)));
                        }
                    } else {
                        let m = choose|m: int| 0 <= m < j && #[trigger] self.run_of(m).contains(id);
                        assert(self.run_of(m).disjoint(self.run_of(j as int)));
                    }
                }
                let base = before.count_considered();
                if p.count == 0 {
                    assert(self.run_of(j as int) =~= Set::empty());
                    assert(t =~= s);
                    self.lemma_same_top_settled(q, before, before.count_empty(), s);
                } else if distance::box_distance(q, p.bbox_min, p.bbox_max) >= base.worst() {
                    self.lemma_box_rules_out(
                        q,
                        p.bbox_min,
                        p.bbox_max,
                        p.start as int,
                        p.start + p.count,
                        before,
                        s,
                    );
                    self.lemma_same_top_settled(q, before, base.count_pruned(), t);
                } else {
                    self.lemma_same_top_settled(q, before, base.count_extra(), s);
                    self.lemma_open_settles(q, j as int, base.count_extra(), s);
                }
            }
        }
    }

    proof fn lemma_run_settles(self, q: QVec)
        requires
            self.sound(),
            self.nodes@.len() == 0 || self.unlimited(),
            q.in_domain(),
        ensures
            self.settled(q, self.run(q), range(0, self.count as int)),
    {
        let none = Set::<int>::empty();
        let start = Progress::start();
        assert(self.settled(q, start, none));
        let all = range(0, self.count as int);
        if self.nodes@.len() == 0 {
            let base = start.count_vectors(self.count as nat);
            self.lemma_same_top_settled(q, start, base, none);
            self.lemma_scan_settles(q, 0, self.count as int, base, none);
            assert(none.union(all) =~= all);
        } else {
            let key = index::key_of(q);
            assert(self.partition_covers(key));
            self.lemma_same_top_settled(q, start, self.begun(key), none);
            self.lemma_open_settles(q, key, self.begun(key), none);
            assert(none.union(self.run_of(key)) =~= self.run_of(key));
            let primary = self.open_partition(q, self.partitions@[key], self.begun(key));
            self.lemma_weigh_settles(q, key, 256, primary);
            assert(self.held_below(key, 256) =~= all) by {
                assert forall|id: int| self.held_below(key, 256).contains(id) implies all.contains(
                    id,
                ) by {
                    if self.run_of(key).contains(id) {
                        assert(self.partition_covers(key));
                    } else {
                        let m = choose|m: int|
                            0 <= m < 256 && #[trigger] self.run_of(m).contains(id);
                        assert(self.partition_covers(m));
                    }
                }
                assert forall|id: int| all.contains(id) implies self.held_below(key, 256).contains(
                    id,
                ) by {
                    assert(self.held(id));
                }
            }
        }
    }

    proof fn lemma_full_places(self, q: QVec, st: Progress, lo: int, hi: int, m: nat)
        requires
            self.settled(q, st, range(lo, hi)),
            0 <= lo <= hi <= self.count,
            forall|id: int| 0 <= id < self.count ==> (#[trigger] self.vector(id)).in_domain(),
            q.in_domain(),
            m <= 5,
            forall|i: int| 0 <= i < m ==> (#[trigger] st.top[i]).id != -1,
            m < 5 ==> st.top[m as int].id == -1,
        ensures
            self.nearest_among(q, Seq::new(m, |i: int| st.top[i].id), lo, hi),
    {
        let all = range(lo, hi);
        let sel = Seq::new(m, |i: int| st.top[i].id);
        assert(sel.no_duplicates());
        if m < 5 {
            assert forall|i: int| m <= i < 5 implies (#[trigger] st.top[i]).id == -1 by {
                if st.top[i].id != -1 {
                    let id = st.top[i].id;
                    reveal(Index::dist_to);
                    law_distance_is_euclidean(q, self.vector(id));
                    assert(st.top[m as int].dist <= st.top[i].dist);
                }
            }
            assert forall|id: int| lo <= id < hi implies sel.contains(id) by {
                assert(all.contains(id));
                reveal(Index::dist_to);
                law_distance_is_euclidean(q, self.vector(id));
                assert(self.placed_at(st, id));
                let i = choose|i: int| 0 <= i < 5 && (#[trigger] st.top[i]).id == id;
                assert(sel[i] == id);
            }
        }
        assert(sel.to_set().subset_of(all)) by {
            assert forall|id: int| sel.to_set().contains(id) implies all.contains(id) by {
                let i = choose|i: int| 0 <= i < sel.len() && sel[i] == id;
                assert(st.top[i].id == id);
            }
        }
        vstd::set_lib::lemma_int_range(lo, hi);
        assert(all =~= vstd::set_lib::set_int_range(lo, hi));
        sel.unique_seq_to_set();
        vstd::set_lib::lemma_len_subset(sel.to_set(), all);
        if m < 5 {
            assert(sel.to_set() =~= all);
        }
        assert forall|i: int, id: int|
            0 <= i < sel.len() && lo <= id < hi && !sel.contains(
                id,
            ) implies squared_distance(q, self.vector(#[trigger] sel[i])) <= squared_distance(
            q,
            #[trigger] self.vector(id),
        ) by {
            assert(all.contains(id));
            if self.placed_at(st, id) {
                let j = choose|j: int| 0 <= j < 5 && (#[trigger] st.top[j]).id == id;
                if j < m {
                    assert(sel[j] == id);
                }
            }
            assert(st.top[i].id == sel[i]);
            assert(all.contains(sel[i]));
            reveal(Index::dist_to);
            law_distance_is_euclidean(q, self.vector(id));
            law_distance_is_euclidean(q, self.vector(sel[i]));
            assert(st.top[i].dist <= st.top[4].dist);
        }
    }
}

proof fn lemma_count_set_tail(s: Seq<bool>, m: nat)
    requires
        m <= s.len(),
        forall|i: int| m <= i < s.len() ==> !s[i],
    ensures
        top5::count_set(s) == top5::count_set(s.take(m as int)),
    decreases s.len(),
{
    if m < s.len() {
        lemma_count_set_tail(s.drop_last(), m);
        assert(s.drop_last().take(m as int) =~= s.take(m as int));
    } else {
        assert(s.take(m as int) =~= s);
    }
}

impl Index {
    /// Where the places hold the nearest of `lo .. hi`, the votes are those of a choice of them.
    proof fn lemma_votes_of_nearest(self, q: QVec, st: Progress, lo: int, hi: int)
        requires
            self.settled(q, st, range(lo, hi)),
            0 <= lo <= hi <= self.count,
            forall|id: int| 0 <= id < self.count ==> (#[trigger] self.vector(id)).in_domain(),
            q.in_domain(),
        ensures
            exists|sel: Seq<int>| #[trigger]
                self.nearest_among(q, sel, lo, hi) && self.votes(st) == self.frauds(sel),
    {
        let m: nat = if st.top[0].id == -1 {
            0
        } else if st.top[1].id == -1 {
            1
        } else if st.top[2].id == -1 {
            2
        } else if st.top[3].id == -1 {
            3
        } else if st.top[4].id == -1 {
            4
        } else {
            5
        };
        let sel = Seq::new(m, |i: int| st.top[i].id);
        self.lemma_full_places(q, st, lo, hi, m);
        assert(self.nearest_among(q, sel, lo, hi));
        let flags = Seq::new(5, |i: int| self.fraud(st.top[i].id));
        assert forall|i: int| m <= i < 5 implies !flags[i] by {
            if st.top[i].id != -1 {
                let id = st.top[i].id;
                reveal(Index::dist_to);
                law_distance_is_euclidean(q, self.vector(id));
                assert(st.top[m as int].dist <= st.top[i].dist);
            }
        }
        lemma_count_set_tail(flags, m);
        assert(flags.take(m as int) =~= Seq::new(sel.len(), |i: int| self.fraud(sel[i])));
    }
}

/// An unlimited search of a sound index is exact: the votes it counts are those of a
/// choice of five nearest vectors. Without trees no search is limited. Where vectors are as
/// near as the fifth, the choice among them is left open.
pub proof fn law_search_is_exact(ix: Index, q: QVec)
    requires
        ix.sound(),
        ix.nodes@.len() == 0 || ix.unlimited(),
        q.in_domain(),
    ensures
        exists|sel: Seq<int>| #[trigger]
            ix.nearest(q, sel) && ix.votes(ix.run(q)) == ix.frauds(sel),
{
    ix.lemma_run_settles(q);
    ix.lemma_votes_of_nearest(q, ix.run(q), 0, ix.count as int);
    let sel = choose|sel: Seq<int>| #[trigger]
        ix.nearest_among(q, sel, 0, ix.count as int) && ix.votes(ix.run(q)) == ix.frauds(sel);
    assert(ix.nearest(q, sel));
}

/// A search of the primary partition alone is exact within it: the votes are those of a choice
/// of five nearest vectors of the query's own partition.
pub proof fn law_primary_search_is_exact(ix: Index, q: QVec)
    requires
        ix.sound(),
        ix.nodes@.len() > 0,
        ix.limits.primary_only,
        q.in_domain(),
    ensures
        ({
            let p = ix.partitions@[index::key_of(q)];
            exists|sel: Seq<int>| #[trigger]
                ix.nearest_among(q, sel, p.start as int, p.start + p.count) && ix.votes(ix.run(q))
                    == ix.frauds(sel)
        }),
{
    let key = index::key_of(q);
    let p = ix.partitions@[key];
    let none = Set::<int>::empty();
    let start = Progress::start();
    let st = ix.run(q);
    assert(ix.settled(q, start, none));
    assert(ix.partition_covers(key));
    ix.lemma_same_top_settled(q, start, ix.begun(key), none);
    ix.lemma_open_settles(q, key, ix.begun(key), none);
    assert(none.union(ix.run_of(key)) =~= ix.run_of(key));
    if p.count == 0 {
        assert(ix.run_of(key) =~= range(0, 0));
        ix.lemma_votes_of_nearest(q, st, 0, 0);
        let sel = choose|sel: Seq<int>| #[trigger]
            ix.nearest_among(q, sel, 0, 0) && ix.votes(st) == ix.frauds(sel);
        assert(ix.nearest_among(q, sel, p.start as int, p.start + p.count));
    } else {
        ix.lemma_votes_of_nearest(q, st, p.start as int, p.start + p.count);
    }
}

} // verus!
