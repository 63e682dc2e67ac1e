//! The index in memory and the exact search over it.
use crate::distance::{lower_bound, staged_distance, Staged};
use crate::index;
use crate::index::{partition_key, KdNode, PartitionMeta, QVec, PARTITIONS};
use crate::top5;
use crate::top5::Top5;
use crate::traversal::{Progress, MAX_LEVELS};
use vstd::prelude::*;

verus! {

/// Counters of one search. They wrap at 2^32.
pub struct SearchStats {
    pub partition_key: u8,
    pub partitions_considered: u32,
    pub partitions_searched: u32,
    pub partitions_pruned: u32,
    pub empty_partitions: u32,
    pub nodes_visited: u32,
    pub nodes_pruned: u32,
    pub leaves_scanned: u32,
    pub vectors_scanned: u32,
    pub stage8_pruned: u32,
    pub full_scanned: u32,
}

/// All counters at zero.
pub open spec fn fresh_stats() -> SearchStats {
    SearchStats {
        partition_key: 0,
        partitions_considered: 0,
        partitions_searched: 0,
        partitions_pruned: 0,
        empty_partitions: 0,
        nodes_visited: 0,
        nodes_pruned: 0,
        leaves_scanned: 0,
        vectors_scanned: 0,
        stage8_pruned: 0,
        full_scanned: 0,
    }
}

impl Default for SearchStats {
    fn default() -> (r: SearchStats)
        ensures
            r == fresh_stats(),
    {
        SearchStats {
            partition_key: 0,
            partitions_considered: 0,
            partitions_searched: 0,
            partitions_pruned: 0,
            empty_partitions: 0,
            nodes_visited: 0,
            nodes_pruned: 0,
            leaves_scanned: 0,
            vectors_scanned: 0,
            stage8_pruned: 0,
            full_scanned: 0,
        }
    }
}

/// How far a search may reach beyond the partition of the query's own key. Without any
/// limit the search is exact.
#[derive(Clone, Copy)]
pub struct SearchLimits {
    /// Search the primary partition only.
    pub primary_only: bool,
    /// Open at most this many other partitions.
    pub max_extra_partitions: Option<u32>,
}

impl SearchLimits {
    pub fn none() -> (r: SearchLimits)
        ensures
            r == (SearchLimits { primary_only: false, max_extra_partitions: None }),
    {
        SearchLimits { primary_only: false, max_extra_partitions: None }
    }
}

/// The labelled vectors, grouped by partition, and the trees over them.
pub struct Index {
    pub vectors: Vec<QVec>,
    pub labels: Vec<u8>,
    pub count: usize,
    pub partitions: Vec<PartitionMeta>,
    pub nodes: Vec<KdNode>,
    pub limits: SearchLimits,
}

/// `n` as a counter shows it.
pub open spec fn shown(n: nat) -> u32 {
    (n % 0x1_0000_0000) as u32
}

/// The counters show what the tally counts.
pub open spec fn shows(stats: SearchStats, st: Progress) -> bool {
    &&& stats.partitions_considered == shown(st.tally.considered)
    &&& stats.partitions_searched == shown(st.tally.searched)
    &&& stats.partitions_pruned == shown(st.tally.pruned)
    &&& stats.empty_partitions == shown(st.tally.empty)
    &&& stats.nodes_visited == shown(st.tally.visited)
    &&& stats.nodes_pruned == shown(st.tally.node_pruned)
    &&& stats.leaves_scanned == shown(st.tally.leaves)
    &&& stats.vectors_scanned == shown(st.tally.vectors)
    &&& stats.stage8_pruned == shown(st.tally.stage8)
    &&& stats.full_scanned == shown(st.tally.full)
}

proof fn lemma_shown_adds(t: nat, n: nat)
    ensures
        shown(t + n) == shown(shown(t) as nat + n),
{
}

fn bump(x: u32, n: u32) -> (r: u32)
    ensures
        r == shown(x as nat + n as nat),
{
    x.wrapping_add(n)
}

pub fn stats_set_key(stats: &mut SearchStats, key: u8)
    ensures
        *final(stats) == (SearchStats { partition_key: key, ..*old(stats) }),
{
    stats.partition_key = key;
}

pub fn stats_partition_considered(stats: &mut SearchStats)
    ensures
        *final(stats) == (SearchStats {
            partitions_considered: shown(old(stats).partitions_considered as nat + 1),
            ..*old(stats)
        }),
{
    stats.partitions_considered = bump(stats.partitions_considered, 1);
}

pub fn stats_partition_searched(stats: &mut SearchStats)
    ensures
        *final(stats) == (SearchStats {
            partitions_searched: shown(old(stats).partitions_searched as nat + 1),
            ..*old(stats)
        }),
{
    stats.partitions_searched = bump(stats.partitions_searched, 1);
}

pub fn stats_partition_pruned(stats: &mut SearchStats)
    ensures
        *final(stats) == (SearchStats {
            partitions_pruned: shown(old(stats).partitions_pruned as nat + 1),
            ..*old(stats)
        }),
{
    stats.partitions_pruned = bump(stats.partitions_pruned, 1);
}

pub fn stats_empty_partition(stats: &mut SearchStats)
    ensures
        *final(stats) == (SearchStats {
            empty_partitions: shown(old(stats).empty_partitions as nat + 1),
            ..*old(stats)
        }),
{
    stats.empty_partitions = bump(stats.empty_partitions, 1);
}

pub fn stats_node_visited(stats: &mut SearchStats)
    ensures
        *final(stats) == (SearchStats {
            nodes_visited: shown(old(stats).nodes_visited as nat + 1),
            ..*old(stats)
        }),
{
    stats.nodes_visited = bump(stats.nodes_visited, 1);
}

pub fn stats_node_pruned(stats: &mut SearchStats)
    ensures
        *final(stats) == (SearchStats {
            nodes_pruned: shown(old(stats).nodes_pruned as nat + 1),
            ..*old(stats)
        }),
{
    stats.nodes_pruned = bump(stats.nodes_pruned, 1);
}

pub fn stats_leaf_scanned(stats: &mut SearchStats)
    ensures
        *final(stats) == (SearchStats {
            leaves_scanned: shown(old(stats).leaves_scanned as nat + 1),
            ..*old(stats)
        }),
{
    stats.leaves_scanned = bump(stats.leaves_scanned, 1);
}

pub fn stats_vectors_scanned(stats: &mut SearchStats, count: u32)
    ensures
        *final(stats) == (SearchStats {
            vectors_scanned: shown(old(stats).vectors_scanned as nat + count as nat),
            ..*old(stats)
        }),
{
    stats.vectors_scanned = bump(stats.vectors_scanned, count);
}

pub fn stats_stage8_pruned(stats: &mut SearchStats)
    ensures
        *final(stats) == (SearchStats {
            stage8_pruned: shown(old(stats).stage8_pruned as nat + 1),
            ..*old(stats)
        }),
{
    stats.stage8_pruned = bump(stats.stage8_pruned, 1);
}

pub fn stats_full_scanned(stats: &mut SearchStats)
    ensures
        *final(stats) == (SearchStats {
            full_scanned: shown(old(stats).full_scanned as nat + 1),
            ..*old(stats)
        }),
{
    stats.full_scanned = bump(stats.full_scanned, 1);
}

/// Puts a node on the stack if its bound beats the worst neighbour and there is room.
pub fn push_if_promising(
    stack: &mut [u32; MAX_LEVELS],
    sp: &mut usize,
    idx: u32,
    lb: i32,
    worst: i32,
)
    ensures
        lb < worst && *old(sp) < 128 ==> {
            &&& final(stack)@ == old(stack)@.update(*old(sp) as int, idx)
            &&& *final(sp) == *old(sp) + 1
        },
        !(lb < worst && *old(sp) < 128) ==> {
            &&& *final(stack) == *old(stack)
            &&& *final(sp) == *old(sp)
        },
{
    if lb < worst && *sp < MAX_LEVELS {
        stack[*sp] = idx;
        *sp = *sp + 1;
    }
}

/// `s`, with `x` on top where it goes up.
spec fn grown<T>(s: Seq<T>, x: T, up: bool) -> Seq<T> {
    if up {
        s.push(x)
    } else {
        s
    }
}

impl Index {
    /// The five places and the counters agree with the progress.
    spec fn mirrored(self, top: Top5, stats: SearchStats, st: Progress) -> bool {
        &&& st.top.len() == 5
        &&& forall|i: int| 0 <= i < 5 ==> #[trigger] top.dists@[i] == st.top[i].dist
        &&& forall|i: int| 0 <= i < 5 ==> #[trigger] top.fraud@[i] == self.fraud(st.top[i].id)
        &&& shows(stats, st)
    }

    proof fn lemma_insert_mirrors(
        self,
        before: Top5,
        after: Top5,
        stats: SearchStats,
        st: Progress,
        d: i32,
        id: int,
    )
        requires
            self.mirrored(before, stats, st),
            d >= before.dists@[4] ==> after == before,
            d < before.dists@[4] ==> {
                let p = top5::slot(before.dist_seq(), d as int, 4) as int;
                &&& after.dists@ == top5::placed(before.dists@, p, d)
                &&& after.fraud@ == top5::placed(before.fraud@, p, self.fraud(id))
            },
        ensures
            self.mirrored(after, stats, st.offer(d as int, id)),
    {
        if d < before.dists@[4] {
            let dists = Seq::new(5, |i: int| st.top[i].dist);
            assert(dists =~= before.dist_seq());
            let p = top5::slot(dists, d as int, 4);
            top5::lemma_slot_bound(dists, d as int, 4);
        }
    }

    fn scan_range(
        &self,
        start: usize,
        count: usize,
        query: &QVec,
        top5: &mut Top5,
        stats: &mut SearchStats,
        Ghost(st): Ghost<Progress>,
    )
        requires
            self.vectors@.len() == self.count,
            self.labels@.len() == self.count,
            start + count <= self.count,
            self.mirrored(*old(top5), *old(stats), st),
        ensures
            self.mirrored(
                *final(top5),
                *final(stats),
                self.scan(*query, start as nat, count as nat, st),
            ),
            final(stats).partition_key == old(stats).partition_key,
    {
        let low: u32 = (count as u64 % 0x1_0000_0000) as u32;
        proof {
            lemma_shown_adds(st.tally.vectors, count as nat);
        }
        stats_vectors_scanned(stats, low);
        let end: usize = start + count;
        let mut i: usize = start;
        let ghost base = st.count_vectors(count as nat);
        while i < end
            invariant
                start <= i <= end,
                end == start + count,
                end <= self.count,
                self.vectors@.len() == self.count,
                self.labels@.len() == self.count,
                base == st.count_vectors(count as nat),
                stats.partition_key == old(stats).partition_key,
                self.mirrored(
                    *top5,
                    *stats,
                    self.scan_ids(*query, start as int, i as int, base),
                ),
            decreases end - i,
        {
            let ghost now = self.scan_ids(*query, start as int, i as int, base);
            let ghost next = self.scan_ids(*query, start as int, i + 1, base);
            assert(next == self.scan_one(*query, i as int, now));
            match staged_distance(query, &self.vectors[i], top5.worst()) {
                Staged::HotPruned => {},
                Staged::MidPruned => {
                    proof {
                        lemma_shown_adds(now.tally.stage8, 1);
                    }
                    stats_stage8_pruned(stats);
                },
                Staged::Full { dist } => {
                    proof {
                        lemma_shown_adds(now.tally.full, 1);
                    }
                    stats_full_scanned(stats);
                    let is_fraud: bool = self.labels[i] != 0;
                    let ghost before = *top5;
                    assert(self.mirrored(*top5, *stats, now.count_full()));
                    top5.try_insert(dist, is_fraud);
                    proof {
                        self.lemma_insert_mirrors(
                            before,
                            *top5,
                            *stats,
                            now.count_full(),
                            dist,
                            i as int,
                        );
                    }
                },
            }
            i = i + 1;
        }
    }

    proof fn lemma_drain_push(
        self,
        q: QVec,
        stack: Seq<u32>,
        levels: Seq<nat>,
        i: u32,
        h: nat,
        st: Progress,
    )
        ensures
            self.drain(q, stack.push(i), levels.push(h), st) == self.drain(
                q,
                stack,
                levels,
                self.visit(q, i as int, h, st),
            ),
            self.burden(stack.push(i), levels.push(h)) == self.burden(stack, levels) + self.weight(
                i as int,
                h,
            ),
    {
        assert(stack.push(i).drop_last() =~= stack);
        assert(levels.push(h).drop_last() =~= levels);
    }

    /// An inner node that is not pruned gives way to those of its children that are promising,
    /// the nearer one on top.
    proof fn lemma_expand(
        self,
        q: QVec,
        i: int,
        h: nat,
        rest: Seq<u32>,
        levels: Seq<nat>,
        near: u32,
        far: u32,
        st: Progress,
    )
        requires
            h > 0,
            self.nodes@[i].left >= 0,
            self.node_bound(q, i) < st.worst(),
            ({
                let l = self.nodes@[i].left as int;
                let r = self.nodes@[i].right as int;
                if self.node_bound(q, l) < self.node_bound(q, r) {
                    near == l && far == r
                } else {
                    near == r && far == l
                }
            }),
        ensures
            ({
                let seen = st.count_visited();
                let below = (h - 1) as nat;
                let far_up = self.node_bound(q, far as int) < seen.worst();
                let near_up = self.node_bound(q, near as int) < seen.worst();
                let stack = grown(grown(rest, far, far_up), near, near_up);
                let up = grown(grown(levels, below, far_up), below, near_up);
                &&& self.drain(q, stack, up, seen) == self.drain(
                    q,
                    rest,
                    levels,
                    self.visit(q, i, h, st),
                )
                &&& self.burden(stack, up) < self.burden(rest, levels) + self.weight(i, h)
            }),
    {
        let seen = st.count_visited();
        let below = (h - 1) as nat;
        let far_up = self.node_bound(q, far as int) < seen.worst();
        let near_up = self.node_bound(q, near as int) < seen.worst();
        let after_near = if near_up {
            self.visit(q, near as int, below, seen)
        } else {
            seen
        };
        self.lemma_drain_push(
            q,
            grown(rest, far, far_up),
            grown(levels, below, far_up),
            near,
            below,
            seen,
        );
        self.lemma_drain_push(q, rest, levels, far, below, after_near);
    }

    fn node_lower_bound(&self, query: &QVec, idx: usize) -> (r: i32)
        requires
            idx < self.nodes@.len(),
        ensures
            r == self.node_bound(*query, idx as int),
    {
        lower_bound(query, &self.nodes[idx].bbox_min, &self.nodes[idx].bbox_max)
    }

    #[verifier::rlimit(30)]
    fn search_tree(
        &self,
        root: u32,
        query: &QVec,
        top5: &mut Top5,
        stats: &mut SearchStats,
        Ghost(st): Ghost<Progress>,
    )
        requires
            self.vectors@.len() == self.count,
            self.labels@.len() == self.count,
            self.tree_ok(root as int, MAX_LEVELS as nat),
            self.mirrored(*old(top5), *old(stats), st),
        ensures
            self.mirrored(
                *final(top5),
                *final(stats),
                self.visit(*query, root as int, MAX_LEVELS as nat, st),
            ),
            final(stats).partition_key == old(stats).partition_key,
    {
        let ghost target = self.visit(*query, root as int, MAX_LEVELS as nat, st);
        let mut stack: [u32; MAX_LEVELS] = [0u32; MAX_LEVELS];
        let mut sp: usize = 1;
        stack[0] = root;
        let ghost mut levels: Seq<nat> = Seq::<nat>::empty().push(128);
        let ghost mut cur = st;
        proof {
            assert(stack@.take(1) =~= Seq::<u32>::empty().push(root));
            self.lemma_drain_push(*query, Seq::empty(), Seq::empty(), root, 128, st);
        }
        while sp != 0
            invariant
                sp <= 128,
                levels.len() == sp,
                self.vectors@.len() == self.count,
                self.labels@.len() == self.count,
                forall|j: int|
                    0 <= j < sp ==> self.tree_ok(#[trigger] stack@[j] as int, levels[j]) && j
                        + levels[j] <= 128,
                self.drain(*query, stack@.take(sp as int), levels, cur) == target,
                self.mirrored(*top5, *stats, cur),
                stats.partition_key == old(stats).partition_key,
            decreases self.burden(stack@.take(sp as int), levels),
        {
            let ghost h = levels.last();
            let ghost i = stack@[sp - 1];
            let ghost rest = stack@.take(sp - 1);
            let ghost rest_levels = levels.drop_last();
            let ghost seen = cur.count_visited();
            proof {
                assert(stack@.take(sp as int) =~= rest.push(i));
                assert(levels =~= rest_levels.push(h));
                self.lemma_drain_push(*query, rest, rest_levels, i, h, cur);
                lemma_shown_adds(cur.tally.visited, 1);
                lemma_shown_adds(seen.tally.node_pruned, 1);
                lemma_shown_adds(seen.tally.leaves, 1);
                assert(self.tree_ok(i as int, h));
            }
            sp = sp - 1;
            let node: &KdNode = &self.nodes[stack[sp] as usize];
            stats_node_visited(stats);
            let lb: i32 = lower_bound(query, &node.bbox_min, &node.bbox_max);
            if lb >= top5.worst() {
                stats_node_pruned(stats);
                proof {
                    cur = seen.count_node_pruned();
                    levels = rest_levels;
                }
            } else if node.left < 0 {
                stats_leaf_scanned(stats);
                self.scan_range(
                    node.start as usize,
                    node.count as usize,
                    query,
                    top5,
                    stats,
                    Ghost(seen.count_leaf()),
                );
                proof {
                    cur = self.scan(
                        *query,
                        node.start as nat,
                        node.count as nat,
                        seen.count_leaf(),
                    );
                    levels = rest_levels;
                }
            } else {
                let ghost below = (h - 1) as nat;
                assert(self.tree_ok(node.left as int, below));
                assert(self.tree_ok(node.right as int, below));
                let left: usize = node.left as usize;
                let right: usize = node.right as usize;
                let left_lb: i32 = self.node_lower_bound(query, left);
                let right_lb: i32 = self.node_lower_bound(query, right);
                let worst: i32 = top5.worst();
                let left_first: bool = left_lb < right_lb;
                let near: u32 = if left_first { left as u32 } else { right as u32 };
                let far: u32 = if left_first { right as u32 } else { left as u32 };
                let near_lb: i32 = if left_first { left_lb } else { right_lb };
                let far_lb: i32 = if left_first { right_lb } else { left_lb };
                let ghost with_far = grown(rest, far, far_lb < worst);
                let ghost with_near = grown(with_far, near, near_lb < worst);
                assert(below > 0);
                push_if_promising(&mut stack, &mut sp, far, far_lb, worst);
                assert(stack@.take(sp as int) =~= with_far);
                push_if_promising(&mut stack, &mut sp, near, near_lb, worst);
                assert(stack@.take(sp as int) =~= with_near);
                proof {
                    self.lemma_expand(*query, i as int, h, rest, rest_levels, near, far, cur);
                    let far_levels = grown(rest_levels, below, far_lb < worst);
                    cur = seen;
                    levels = grown(far_levels, below, near_lb < worst);
                    assert forall|j: int| 0 <= j < sp implies self.tree_ok(
                        #[trigger] stack@[j] as int,
                        levels[j],
                    ) && j + levels[j] <= 128 by {
                        assert(stack@[j] == with_near[j]);
                    }
                }
            }
        }
    }

    fn search_one_partition(
        &self,
        part: &PartitionMeta,
        query: &QVec,
        top5: &mut Top5,
        stats: &mut SearchStats,
        Ghost(st): Ghost<Progress>,
    )
        requires
            self.vectors@.len() == self.count,
            self.labels@.len() == self.count,
            self.partition_ok(*part),
            self.mirrored(*old(top5), *old(stats), st),
        ensures
            self.mirrored(
                *final(top5),
                *final(stats),
                self.open_partition(*query, *part, st),
            ),
            final(stats).partition_key == old(stats).partition_key,
    {
        if part.count == 0 {
            return;
        }
        proof {
            lemma_shown_adds(st.tally.searched, 1);
        }
        stats_partition_searched(stats);
        if part.root < 0 {
            self.scan_range(
                part.start as usize,
                part.count as usize,
                query,
                top5,
                stats,
                Ghost(st.count_searched()),
            );
            return;
        }
        self.search_tree(part.root as u32, query, top5, stats, Ghost(st.count_searched()));
    }

    proof fn lemma_scan_keeps_extra(self, q: QVec, lo: int, hi: int, st: Progress)
        ensures
            self.scan_ids(q, lo, hi, st).tally.extra == st.tally.extra,
        decreases hi - lo,
    {
        if lo < hi {
            self.lemma_scan_keeps_extra(q, lo, hi - 1, st);
        }
    }

    proof fn lemma_visit_keeps_extra(self, q: QVec, i: int, h: nat, st: Progress)
        ensures
            self.visit(q, i, h, st).tally.extra == st.tally.extra,
        decreases h,
    {
        if h > 0 {
            let node = self.nodes@[i];
            let seen = st.count_visited();
            let below = (h - 1) as nat;
            self.lemma_scan_keeps_extra(
                q,
                node.start as int,
                node.start + node.count,
                seen.count_leaf().count_vectors(node.count as nat),
            );
            let left_first = self.node_bound(q, node.left as int) < self.node_bound(
                q,
                node.right as int,
            );
            let near = if left_first { node.left as int } else { node.right as int };
            let far = if left_first { node.right as int } else { node.left as int };
            let after_near = if self.node_bound(q, near) < seen.worst() {
                self.visit(q, near, below, seen)
            } else {
                seen
            };
            self.lemma_visit_keeps_extra(q, near, below, seen);
            self.lemma_visit_keeps_extra(q, far, below, after_near);
        }
    }

    proof fn lemma_extra_kept(self, q: QVec, p: PartitionMeta, st: Progress)
        ensures
            self.open_partition(q, p, st).tally.extra == st.tally.extra,
    {
        self.lemma_scan_keeps_extra(
            q,
            p.start as int,
            p.start + p.count,
            st.count_searched().count_vectors(p.count as nat),
        );
        self.lemma_visit_keeps_extra(q, p.root as int, MAX_LEVELS as nat, st.count_searched());
    }

    fn search_partitioned(&self, query: &QVec, top5: &mut Top5, stats: &mut SearchStats)
        requires
            self.searchable(),
            self.nodes@.len() > 0,
            self.mirrored(*old(top5), *old(stats), Progress::start()),
        ensures
            self.mirrored(*final(top5), *final(stats), self.run(*query)),
            final(stats).partition_key == old(stats).partition_key,
    {
        let key: usize = partition_key(query) as usize;
        let ghost begun = self.begun(key as int);
        if self.partitions[key].count != 0 {
            stats_partition_considered(stats);
        } else {
            stats_empty_partition(stats);
        }
        assert(self.partition_ok(self.partitions@[key as int]));
        self.search_one_partition(&self.partitions[key], query, top5, stats, Ghost(begun));
        let ghost primary = self.open_partition(*query, self.partitions@[key as int], begun);
        if self.limits.primary_only {
            return;
        }
        let mut extra: u32 = 0;
        let mut k: usize = 0;
        proof {
            self.lemma_extra_kept(*query, self.partitions@[key as int], begun);
        }
        while k < PARTITIONS
            invariant
                k <= 256,
                self.searchable(),
                self.nodes@.len() > 0,
                extra <= k,
                extra == self.weigh_below(*query, key as int, k as nat, primary).tally.extra,
                self.mirrored(
                    *top5,
                    *stats,
                    self.weigh_below(*query, key as int, k as nat, primary),
                ),
                stats.partition_key == old(stats).partition_key,
            decreases 256 - k,
        {
            let ghost now = self.weigh_below(*query, key as int, k as nat, primary);
            if k != key {
                let p: &PartitionMeta = &self.partitions[k];
                proof {
                    lemma_shown_adds(now.tally.considered, 1);
                    lemma_shown_adds(now.tally.pruned, 1);
                    lemma_shown_adds(now.tally.empty, 1);
                    self.lemma_extra_kept(*query, *p, now.count_considered().count_extra());
                }
                if p.count != 0 {
                    stats_partition_considered(stats);
                    let lb: i32 = lower_bound(query, &p.bbox_min, &p.bbox_max);
                    if lb < top5.worst() {
                        let open: bool = match self.limits.max_extra_partitions {
                            Some(n) => extra < n,
                            None => true,
                        };
                        if open {
                            extra = extra + 1;
                            self.search_one_partition(
                                p,
                                query,
                                top5,
                                stats,
                                Ghost(now.count_considered().count_extra()),
                            );
                        }
                    } else {
                        stats_partition_pruned(stats);
                    }
                } else {
                    stats_empty_partition(stats);
                }
            }
            k = k + 1;
        }
    }

    fn search_exact_inner(&self, query: &QVec, stats: &mut SearchStats) -> (r: u32)
        requires
            self.searchable(),
            *old(stats) == fresh_stats(),
        ensures
            r == self.votes(self.run(*query)),
            r <= 5,
            shows(*final(stats), self.run(*query)),
            final(stats).partition_key == index::key_of(*query),
    {
        let mut top5: Top5 = Top5::new();
        stats_set_key(stats, partition_key(query));
        if self.nodes.len() != 0 {
            self.search_partitioned(query, &mut top5, stats);
        } else {
            self.scan_range(0, self.count, query, &mut top5, stats, Ghost(Progress::start()));
        }
        let ghost end = self.run(*query);
        assert(top5.fraud@ =~= Seq::new(5, |i: int| self.fraud(end.top[i].id)));
        top5.fraud_count()
    }

    /// The number of frauds among the five nearest neighbours of `query`.
    pub fn search_exact(&self, query: &QVec) -> (r: u32)
        requires
            self.searchable(),
        ensures
            r == self.votes(self.run(*query)),
            r <= 5,
    {
        let mut stats: SearchStats = SearchStats::default();
        self.search_exact_inner(query, &mut stats)
    }

    /// The number of frauds among the five nearest neighbours of `query`, and what the
    /// search counted on its way.
    pub fn search_exact_with_stats(&self, query: &QVec, stats: &mut SearchStats) -> (r: u32)
        requires
            self.searchable(),
        ensures
            r == self.votes(self.run(*query)),
            r <= 5,
            shows(*final(stats), self.run(*query)),
            final(stats).partition_key == index::key_of(*query),
    {
        *stats = SearchStats::default();
        self.search_exact_inner(query, stats)
    }
}

} // verus!
