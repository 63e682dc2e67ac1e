//! What the counters of a search say together.
use crate::exact;
use crate::index;
use crate::index::{PartitionMeta, QVec};
use crate::search::Index;
use crate::traversal::{Progress, Tally, MAX_LEVELS};
use vstd::prelude::*;

verus! {

impl Tally {
    /// No more candidates are told apart than were scanned, no more nodes than were visited,
    /// and no more partitions than were considered.
    pub open spec fn consistent(self) -> bool {
        &&& self.stage8 + self.full <= self.vectors
        &&& self.node_pruned + self.leaves <= self.visited
        &&& self.searched + self.pruned <= self.considered
    }

    /// Only candidates and nodes were counted since `before`.
    spec fn same_partitions(self, before: Tally) -> bool {
        &&& self.considered == before.considered
        &&& self.searched == before.searched
        &&& self.pruned == before.pruned
        &&& self.empty == before.empty
        &&& self.extra == before.extra
    }

    /// Only candidates were counted since `before`.
    spec fn same_nodes(self, before: Tally) -> bool {
        &&& self.same_partitions(before)
        &&& self.visited == before.visited
        &&& self.node_pruned == before.node_pruned
        &&& self.leaves == before.leaves
    }

    /// What is known of candidates and nodes.
    spec fn inner(self) -> bool {
        &&& self.stage8 + self.full <= self.vectors
        &&& self.node_pruned + self.leaves <= self.visited
    }
}

impl Index {
    /// The number of partitions below `k` that hold records.
    pub open spec fn filled(self, k: nat) -> nat
        decreases k,
    {
        if k == 0 {
            0
        } else {
            self.filled((k - 1) as nat) + if self.partitions@[k - 1].count != 0 {
                1nat
            } else {
                0
            }
        }
    }

    proof fn lemma_scan_ids(self, q: QVec, lo: int, hi: int, st: Progress)
        requires
            lo <= hi,
        ensures
            ({
                let t = self.scan_ids(q, lo, hi, st).tally;
                &&& t.same_nodes(st.tally)
                &&& t.vectors == st.tally.vectors
                &&& t.stage8 + t.full <= st.tally.stage8 + st.tally.full + (hi - lo)
            }),
        decreases hi - lo,
    {
        if lo < hi {
            self.lemma_scan_ids(q, lo, hi - 1, st);
        }
    }

    proof fn lemma_scan(self, q: QVec, start: nat, count: nat, st: Progress)
        requires
            st.tally.inner(),
        ensures
            self.scan(q, start, count, st).tally.inner(),
            self.scan(q, start, count, st).tally.same_nodes(st.tally),
    {
        self.lemma_scan_ids(q, start as int, (start + count) as int, st.count_vectors(count));
    }

    proof fn lemma_visit(self, q: QVec, i: int, h: nat, st: Progress)
        requires
            st.tally.inner(),
        ensures
            self.visit(q, i, h, st).tally.inner(),
            self.visit(q, i, h, st).tally.same_partitions(st.tally),
        decreases h,
    {
        if h > 0 {
            let node = self.nodes@[i];
            let seen = st.count_visited();
            if self.node_bound(q, i) >= seen.worst() {
            } else if node.left < 0 {
                self.lemma_scan(q, node.start as nat, node.count as nat, seen.count_leaf());
            } else {
                let l = node.left as int;
                let r = node.right as int;
                let left_first = self.node_bound(q, l) < self.node_bound(q, r);
                let near = if left_first {
                    l
                } else {
                    r
                };
                let far = if left_first {
                    r
                } else {
                    l
                };
                let k = (h - 1) as nat;
                let after_near = if self.node_bound(q, near) < seen.worst() {
                    self.visit(q, near, k, seen)
                } else {
                    seen
                };
                self.lemma_visit(q, near, k, seen);
                self.lemma_visit(q, far, k, after_near);
            }
        }
    }

    proof fn lemma_open(self, q: QVec, p: PartitionMeta, st: Progress)
        requires
            st.tally.inner(),
        ensures
            self.open_partition(q, p, st).tally.inner(),
            self.open_partition(q, p, st).tally.same_partitions(
                if p.count == 0 {
                    st.tally
                } else {
                    st.count_searched().tally
                },
            ),
    {
        if p.count == 0 {
        } else if p.root < 0 {
            self.lemma_scan(q, p.start as nat, p.count as nat, st.count_searched());
        } else {
            self.lemma_visit(q, p.root as int, MAX_LEVELS as nat, st.count_searched());
        }
    }

    proof fn lemma_weigh(self, q: QVec, k: int, st: Progress)
        requires
            st.tally.consistent(),
        ensures
            ({
                let t = self.weigh(q, k, st).tally;
                &&& t.consistent()
                &&& t.considered + t.empty == st.tally.considered + st.tally.empty + 1
                &&& t.considered == st.tally.considered + if self.partitions@[k].count != 0 {
                    1int
                } else {
                    0
                }
                &&& self.limits.max_extra_partitions is None ==> t.searched + t.pruned
                    - st.tally.searched - st.tally.pruned == t.considered - st.tally.considered
                &&& t.extra == st.tally.extra || t.extra == st.tally.extra + 1 && self.may_open(st)
            }),
    {
        let p = self.partitions@[k];
        self.lemma_open(q, p, st.count_considered().count_extra());
    }

    proof fn lemma_weigh_below(self, q: QVec, key: int, k: nat, st: Progress)
        requires
            st.tally.consistent(),
            0 <= key < 256,
        ensures
            ({
                let t = self.weigh_below(q, key, k, st).tally;
                &&& t.consistent()
                &&& t.considered + t.empty == st.tally.considered + st.tally.empty + k - if key
                    < k {
                    1int
                } else {
                    0
                }
                &&& t.considered == st.tally.considered + self.filled(k) - if key < k
                    && self.partitions@[key].count != 0 {
                    1int
                } else {
                    0
                }
                &&& self.limits.max_extra_partitions is None ==> t.searched + t.pruned
                    - st.tally.searched - st.tally.pruned == t.considered - st.tally.considered
                &&& self.limits.max_extra_partitions matches Some(n) ==> st.tally.extra <= n
                    ==> t.extra <= n
            }),
        decreases k,
    {
        if k > 0 {
            let before = self.weigh_below(q, key, (k - 1) as nat, st);
            self.lemma_weigh_below(q, key, (k - 1) as nat, st);
            if k - 1 != key {
                self.lemma_weigh(q, k - 1, before);
            }
        }
    }
}

/// The counters of a search fit together.
pub proof fn law_counters_are_consistent(ix: Index, q: QVec)
    ensures
        ix.run(q).tally.consistent(),
{
    if ix.nodes@.len() == 0 {
        ix.lemma_scan(q, 0, ix.count as nat, Progress::start());
    } else {
        let key = index::key_of(q);
        let first = ix.begun(key);
        ix.lemma_open(q, ix.partitions@[key], first);
        if !ix.limits.primary_only {
            ix.lemma_weigh_below(q, key, 256, ix.open_partition(q, ix.partitions@[key], first));
        }
    }
}

/// Every partition is accounted for: it is considered where it holds records, and it is empty
/// otherwise. Without limits each of those that hold records is searched or pruned.
pub proof fn law_partitions_are_accounted_for(ix: Index, q: QVec)
    requires
        ix.nodes@.len() > 0,
        !ix.limits.primary_only,
    ensures
        ix.run(q).tally.considered == ix.filled(256),
        ix.run(q).tally.empty == 256 - ix.filled(256),
        ix.unlimited() ==> ix.run(q).tally.searched + ix.run(q).tally.pruned == ix.filled(256),
{
    let key = index::key_of(q);
    let first = ix.begun(key);
    ix.lemma_open(q, ix.partitions@[key], first);
    ix.lemma_weigh_below(q, key, 256, ix.open_partition(q, ix.partitions@[key], first));
}

/// The sum of `f` over the numbers below `k`.
spec fn sum_below(f: spec_fn(int) -> nat, k: nat) -> nat
    decreases k,
{
    if k == 0 {
        0
    } else {
        sum_below(f, (k - 1) as nat) + f(k - 1)
    }
}

/// Sets below `n` that share nothing have together at most `n` members.
proof fn lemma_disjoint_sum(sets: spec_fn(int) -> Set<int>, n: int, k: nat)
    requires
        0 <= n,
        forall|j: int| 0 <= j < k ==> (#[trigger] sets(j)).subset_of(exact::range(0, n)),
        forall|i: int, j: int|
            0 <= i < j < k ==> (#[trigger] sets(i)).disjoint(#[trigger] sets(j)),
    ensures
        sum_below(|j: int| sets(j).len(), k) <= n,
{
    let all = lemma_disjoint_union(sets, n, k);
    vstd::set_lib::lemma_int_range(0, n);
    vstd::set_lib::lemma_len_subset(all, vstd::set_lib::set_int_range(0, n));
}

proof fn lemma_disjoint_union(sets: spec_fn(int) -> Set<int>, n: int, k: nat) -> (all: Set<int>)
    requires
        0 <= n,
        forall|j: int| 0 <= j < k ==> (#[trigger] sets(j)).subset_of(exact::range(0, n)),
        forall|i: int, j: int|
            0 <= i < j < k ==> (#[trigger] sets(i)).disjoint(#[trigger] sets(j)),
    ensures
        all.finite(),
        all.len() == sum_below(|j: int| sets(j).len(), k),
        forall|x: int| #[trigger]
            all.contains(x) ==> 0 <= x < n && exists|j: int|
                0 <= j < k && #[trigger] sets(j).contains(x),
    decreases k,
{
    if k == 0 {
        Set::empty()
    } else {
        let before = lemma_disjoint_union(sets, n, (k - 1) as nat);
        let last = sets(k - 1);
        vstd::set_lib::lemma_int_range(0, n);
        let whole = vstd::set_lib::set_int_range(0, n);
        assert(last.subset_of(whole));
        vstd::set_lib::lemma_len_subset(last, whole);
        assert(before.disjoint(last)) by {
            assert forall|x: int| before.contains(x) implies !last.contains(x) by {
                let j = choose|j: int| 0 <= j < k - 1 && #[trigger] sets(j).contains(x);
                assert(sets(j).disjoint(sets(k - 1)));
            }
        }
        vstd::set_lib::lemma_set_disjoint_lens(before, last);
        let all = before + last;
        assert forall|x: int| #[trigger] all.contains(x) implies 0 <= x < n && exists|j: int|
            0 <= j < k && #[trigger] sets(j).contains(x) by {
            if before.contains(x) {
                let j = choose|j: int| 0 <= j < k - 1 && #[trigger] sets(j).contains(x);
                assert(0 <= j < k && sets(j).contains(x));
            } else {
                assert(sets(k - 1).contains(x));
            }
        }
        all
    }
}

impl Index {
    /// The nodes of the tree below node `i`, at most `h` levels deep.
    pub open spec fn below(self, i: int, h: nat) -> Set<int>
        decreases h,
    {
        if h == 0 {
            Set::empty()
        } else if self.nodes@[i].left < 0 {
            Set::empty().insert(i)
        } else {
            let l = self.below(self.nodes@[i].left as int, (h - 1) as nat);
            let r = self.below(self.nodes@[i].right as int, (h - 1) as nat);
            l.union(r).insert(i)
        }
    }

    /// No node stands twice in the tree below node `i`.
    pub open spec fn branches(self, i: int, h: nat) -> bool
        decreases h,
    {
        h > 0 && self.nodes@[i].left >= 0 ==> {
            let l = self.nodes@[i].left as int;
            let r = self.nodes@[i].right as int;
            let k = (h - 1) as nat;
            &&& self.branches(l, k)
            &&& self.branches(r, k)
            &&& self.below(l, k).disjoint(self.below(r, k))
            &&& !self.below(l, k).contains(i)
            &&& !self.below(r, k).contains(i)
        }
    }

    /// The nodes of the tree of partition `k`.
    pub open spec fn tree_of(self, k: int) -> Set<int> {
        let p = self.partitions@[k];
        if p.count == 0 || p.root < 0 {
            Set::empty()
        } else {
            self.below(p.root as int, MAX_LEVELS as nat)
        }
    }

    /// No node stands twice in a tree or in two trees.
    pub open spec fn unshared(self) -> bool {
        &&& forall|k: int|
            0 <= k < 256 && (#[trigger] self.partitions@[k]).count != 0 && self.partitions@[k].root
                >= 0 ==> self.branches(self.partitions@[k].root as int, MAX_LEVELS as nat)
        &&& forall|j: int, k: int|
            0 <= j < k < 256 ==> (#[trigger] self.tree_of(j)).disjoint(#[trigger] self.tree_of(k))
    }

    proof fn lemma_below(self, i: int, h: nat)
        requires
            self.tree_ok(i, h),
        ensures
            self.below(i, h).finite(),
            self.below(i, h).subset_of(exact::range(0, self.nodes@.len() as int)),
        decreases h,
    {
        let node = self.nodes@[i];
        if node.left >= 0 {
            self.lemma_below(node.left as int, (h - 1) as nat);
            self.lemma_below(node.right as int, (h - 1) as nat);
        }
    }

    /// A visit sees no node of a tree twice.
    proof fn lemma_visit_nodes(self, q: QVec, i: int, h: nat, st: Progress)
        requires
            self.tree_ok(i, h),
            self.branches(i, h),
        ensures
            self.visit(q, i, h, st).tally.visited <= st.tally.visited + self.below(i, h).len(),
        decreases h,
    {
        let node = self.nodes@[i];
        let seen = st.count_visited();
        self.lemma_below(i, h);
        if node.left >= 0 {
            let l = node.left as int;
            let r = node.right as int;
            let k = (h - 1) as nat;
            self.lemma_below(l, k);
            self.lemma_below(r, k);
            vstd::set_lib::lemma_set_disjoint_lens(self.below(l, k), self.below(r, k));
            let left_first = self.node_bound(q, l) < self.node_bound(q, r);
            let near = if left_first {
                l
            } else {
                r
            };
            let far = if left_first {
                r
            } else {
                l
            };
            let after_near = if self.node_bound(q, near) < seen.worst() {
                self.visit(q, near, k, seen)
            } else {
                seen
            };
            self.lemma_visit_nodes(q, near, k, seen);
            self.lemma_visit_nodes(q, far, k, after_near);
        } else {
            self.lemma_scan_ids(
                q,
                node.start as int,
                node.start + node.count,
                seen.count_leaf().count_vectors(node.count as nat),
            );
        }
    }

    /// A visit scans at most the records below the node.
    proof fn lemma_visit_vectors(self, q: QVec, i: int, h: nat, st: Progress)
        ensures
            self.visit(q, i, h, st).tally.vectors <= st.tally.vectors + self.extent(i, h),
        decreases h,
    {
        if h > 0 {
            let node = self.nodes@[i];
            let seen = st.count_visited();
            if node.left >= 0 {
                let l = node.left as int;
                let r = node.right as int;
                let k = (h - 1) as nat;
                let left_first = self.node_bound(q, l) < self.node_bound(q, r);
                let near = if left_first {
                    l
                } else {
                    r
                };
                let far = if left_first {
                    r
                } else {
                    l
                };
                let after_near = if self.node_bound(q, near) < seen.worst() {
                    self.visit(q, near, k, seen)
                } else {
                    seen
                };
                self.lemma_visit_vectors(q, near, k, seen);
                self.lemma_visit_vectors(q, far, k, after_near);
            } else {
                self.lemma_scan_ids(
                    q,
                    node.start as int,
                    node.start + node.count,
                    seen.count_leaf().count_vectors(node.count as nat),
                );
            }
        }
    }

    proof fn lemma_extent(self, i: int, h: nat, lo: int, hi: int)
        requires
            self.covers(i, h, lo, hi),
        ensures
            self.extent(i, h) == hi - lo,
        decreases h,
    {
        let node = self.nodes@[i];
        if node.left >= 0 {
            let mid = lo + self.extent(node.left as int, (h - 1) as nat);
            self.lemma_extent(node.right as int, (h - 1) as nat, mid, hi);
        }
    }

    proof fn lemma_open_vectors(self, q: QVec, k: int, st: Progress)
        requires
            0 <= k < 256,
            self.partition_covers(k),
        ensures
            self.open_partition(q, self.partitions@[k], st).tally.vectors <= st.tally.vectors
                + self.partitions@[k].count,
    {
        let p = self.partitions@[k];
        let lo = p.start as int;
        let hi = p.start + p.count;
        if p.count != 0 {
            if p.root < 0 {
                self.lemma_scan_ids(q, lo, hi, st.count_searched().count_vectors(p.count as nat));
            } else {
                self.lemma_extent(p.root as int, MAX_LEVELS as nat, lo, hi);
                self.lemma_visit_vectors(q, p.root as int, MAX_LEVELS as nat, st.count_searched());
            }
        }
    }

    proof fn lemma_open_nodes(self, q: QVec, k: int, st: Progress)
        requires
            0 <= k < 256,
            self.partition_ok(self.partitions@[k]),
            self.unshared(),
        ensures
            self.open_partition(q, self.partitions@[k], st).tally.visited <= st.tally.visited
                + self.tree_of(k).len(),
    {
        let p = self.partitions@[k];
        if p.count != 0 {
            if p.root < 0 {
                self.lemma_scan_ids(
                    q,
                    p.start as int,
                    p.start + p.count,
                    st.count_searched().count_vectors(p.count as nat),
                );
            } else {
                self.lemma_visit_nodes(q, p.root as int, MAX_LEVELS as nat, st.count_searched());
            }
        }
    }

    proof fn lemma_weigh_vectors(self, q: QVec, key: int, k: nat, st: Progress)
        requires
            0 <= key < 256,
            k <= 256,
            forall|j: int| 0 <= j < 256 ==> #[trigger] self.partition_covers(j),
        ensures
            self.weigh_below(q, key, k, st).tally.vectors <= st.tally.vectors + sum_below(
                |j: int| self.partitions@[j].count as nat,
                k,
            ) - if key < k {
                self.partitions@[key].count as int
            } else {
                0
            },
        decreases k,
    {
        if k > 0 {
            let before = self.weigh_below(q, key, (k - 1) as nat, st);
            self.lemma_weigh_vectors(q, key, (k - 1) as nat, st);
            assert(self.partition_covers(k - 1));
            self.lemma_open_vectors(q, k - 1, before.count_considered().count_extra());
        }
    }

    proof fn lemma_weigh_nodes(self, q: QVec, key: int, k: nat, st: Progress)
        requires
            0 <= key < 256,
            k <= 256,
            self.searchable(),
            self.nodes@.len() > 0,
            self.unshared(),
        ensures
            self.weigh_below(q, key, k, st).tally.visited <= st.tally.visited + sum_below(
                |j: int| self.tree_of(j).len(),
                k,
            ) - if key < k {
                self.tree_of(key).len() as int
            } else {
                0
            },
        decreases k,
    {
        if k > 0 {
            let before = self.weigh_below(q, key, (k - 1) as nat, st);
            self.lemma_weigh_nodes(q, key, (k - 1) as nat, st);
            assert(self.partition_ok(self.partitions@[k - 1]));
            self.lemma_open_nodes(q, k - 1, before.count_considered().count_extra());
        }
    }
}

/// A term of a sum is at most the sum.
proof fn lemma_term_of_sum(f: spec_fn(int) -> nat, key: int, k: nat)
    requires
        0 <= key < k,
    ensures
        f(key) <= sum_below(f, k),
    decreases k,
{
    if key < k - 1 {
        lemma_term_of_sum(f, key, (k - 1) as nat);
    }
}

proof fn lemma_same_sum(f: spec_fn(int) -> nat, g: spec_fn(int) -> nat, k: nat)
    requires
        forall|j: int| 0 <= j < k ==> #[trigger] f(j) == g(j),
    ensures
        sum_below(f, k) == sum_below(g, k),
    decreases k,
{
    if k > 0 {
        lemma_same_sum(f, g, (k - 1) as nat);
        assert(f(k - 1) == g(k - 1));
    }
}

/// No vector is scanned twice: a search of a sound index scans at most as many as there are.
pub proof fn law_no_vector_is_scanned_twice(ix: Index, q: QVec)
    requires
        ix.sound(),
    ensures
        ix.run(q).tally.vectors <= ix.count,
{
    if ix.nodes@.len() == 0 {
        ix.lemma_scan_ids(q, 0, ix.count as int, Progress::start().count_vectors(ix.count as nat));
    } else {
        let key = index::key_of(q);
        let counts = |j: int| ix.partitions@[j].count as nat;
        let runs = |j: int| ix.run_of(j);
        let lens = |j: int| runs(j).len();
        assert forall|j: int| 0 <= j < 256 implies #[trigger] lens(j) == counts(j) && runs(
            j,
        ).subset_of(exact::range(0, ix.count as int)) by {
            let p = ix.partitions@[j];
            let lo = p.start as int;
            vstd::set_lib::lemma_int_range(lo, lo + p.count);
            assert(ix.run_of(j) =~= vstd::set_lib::set_int_range(lo, lo + p.count));
            assert(ix.partition_covers(j));
        }
        assert forall|j: int| 0 <= j < 256 implies (#[trigger] runs(j)).subset_of(
            exact::range(0, ix.count as int),
        ) by {
            assert(lens(j) == counts(j));
        }
        assert forall|i: int, j: int| 0 <= i < j < 256 implies (#[trigger] runs(i)).disjoint(
            #[trigger] runs(j),
        ) by {
            assert(ix.run_of(i).disjoint(ix.run_of(j)));
        }
        lemma_disjoint_sum(runs, ix.count as int, 256);
        lemma_same_sum(lens, counts, 256);
        lemma_term_of_sum(counts, key, 256);
        assert(ix.partition_covers(key));
        let first = ix.begun(key);
        ix.lemma_open_vectors(q, key, first);
        ix.lemma_weigh_vectors(q, key, 256, ix.open_partition(q, ix.partitions@[key], first));
    }
}

/// No node is visited twice where the trees share none: a search visits at most as many as
/// there are.
pub proof fn law_no_node_is_visited_twice(ix: Index, q: QVec)
    requires
        ix.searchable(),
        ix.unshared(),
    ensures
        ix.run(q).tally.visited <= ix.nodes@.len(),
{
    if ix.nodes@.len() == 0 {
        ix.lemma_scan_ids(q, 0, ix.count as int, Progress::start().count_vectors(ix.count as nat));
    } else {
        let key = index::key_of(q);
        let trees = |j: int| ix.tree_of(j);
        let lens = |j: int| trees(j).len();
        let sizes = |j: int| ix.tree_of(j).len();
        assert forall|j: int| 0 <= j < 256 implies (#[trigger] trees(j)).subset_of(
            exact::range(0, ix.nodes@.len() as int),
        ) by {
            let p = ix.partitions@[j];
            assert(ix.partition_ok(p));
            if p.count != 0 && p.root >= 0 {
                ix.lemma_below(p.root as int, MAX_LEVELS as nat);
            }
        }
        assert forall|i: int, j: int| 0 <= i < j < 256 implies (#[trigger] trees(i)).disjoint(
            #[trigger] trees(j),
        ) by {
            assert(ix.tree_of(i).disjoint(ix.tree_of(j)));
        }
        lemma_disjoint_sum(trees, ix.nodes@.len() as int, 256);
        lemma_same_sum(lens, sizes, 256);
        lemma_term_of_sum(sizes, key, 256);
        assert(ix.partition_ok(ix.partitions@[key]));
        let first = ix.begun(key);
        ix.lemma_open_nodes(q, key, first);
        ix.lemma_weigh_nodes(q, key, 256, ix.open_partition(q, ix.partitions@[key], first));
    }
}

/// A search stays within its limits: it opens no other partition than the primary one, or no
/// more others than it may.
pub proof fn law_limits_hold(ix: Index, q: QVec)
    ensures
        ix.limits.primary_only ==> ix.run(q).tally.extra == 0 && ix.run(q).tally.searched <= 1,
        ix.limits.max_extra_partitions matches Some(n) ==> ix.run(q).tally.extra <= n,
{
    if ix.nodes@.len() == 0 {
        ix.lemma_scan(q, 0, ix.count as nat, Progress::start());
    } else {
        let key = index::key_of(q);
        let first = ix.begun(key);
        ix.lemma_open(q, ix.partitions@[key], first);
        if !ix.limits.primary_only {
            ix.lemma_weigh_below(q, key, 256, ix.open_partition(q, ix.partitions@[key], first));
        }
    }
}

pub proof fn lemma_filled_bound(ix: Index, k: nat)
    ensures
        ix.filled(k) <= k,
    decreases k,
{
    if k > 0 {
        lemma_filled_bound(ix, (k - 1) as nat);
    }
}

/// Without trees all vectors are scanned and no node is visited.
pub proof fn lemma_plain_scan(ix: Index, q: QVec)
    requires
        ix.nodes@.len() == 0,
    ensures
        ix.run(q).tally.vectors == ix.count,
        ix.run(q).tally.visited == 0,
{
    ix.lemma_scan_ids(q, 0, ix.count as int, Progress::start().count_vectors(ix.count as nat));
}

impl Index {
    proof fn lemma_weigh_reach(self, q: QVec, key: int, k: nat, st: Progress, n: u32)
        requires
            self.limits.max_extra_partitions == Some(n),
        ensures
            ({
                let t = self.weigh_below(q, key, k, st).tally;
                &&& t.searched - st.tally.searched == t.extra - st.tally.extra
                &&& t.extra >= st.tally.extra
                &&& st.tally.extra <= n ==> t.extra <= n
                &&& t.searched + t.pruned - st.tally.searched - st.tally.pruned < t.considered
                    - st.tally.considered ==> t.extra >= n
            }),
        decreases k,
    {
        if k > 0 {
            let before = self.weigh_below(q, key, (k - 1) as nat, st);
            self.lemma_weigh_reach(q, key, (k - 1) as nat, st, n);
            if k - 1 != key {
                let p = self.partitions@[k - 1];
                let base = before.count_considered().count_extra();
                self.lemma_open_counts(q, p, base);
            }
        }
    }

    proof fn lemma_open_counts(self, q: QVec, p: PartitionMeta, st: Progress)
        ensures
            self.open_partition(q, p, st).tally.same_partitions(
                if p.count == 0 {
                    st.tally
                } else {
                    st.count_searched().tally
                },
            ),
    {
        if p.count == 0 {
        } else if p.root < 0 {
            self.lemma_scan_ids(
                q,
                p.start as int,
                p.start + p.count,
                st.count_searched().count_vectors(p.count as nat),
            );
        } else {
            self.lemma_visit_counts(q, p.root as int, MAX_LEVELS as nat, st.count_searched());
        }
    }

    proof fn lemma_visit_counts(self, q: QVec, i: int, h: nat, st: Progress)
        ensures
            self.visit(q, i, h, st).tally.same_partitions(st.tally),
        decreases h,
    {
        if h > 0 {
            let node = self.nodes@[i];
            let seen = st.count_visited();
            if self.node_bound(q, i) >= seen.worst() {
            } else if node.left < 0 {
                self.lemma_scan_ids(
                    q,
                    node.start as int,
                    node.start + node.count,
                    seen.count_leaf().count_vectors(node.count as nat),
                );
            } else {
                let l = node.left as int;
                let r = node.right as int;
                let k = (h - 1) as nat;
                self.lemma_visit_counts(q, l, k, seen);
                self.lemma_visit_counts(q, r, k, seen);
                self.lemma_visit_counts(q, l, k, self.visit(q, r, k, seen));
                self.lemma_visit_counts(q, r, k, self.visit(q, l, k, seen));
            }
        }
    }
}

/// With a limit, the partitions that are searched are the query's own one, where it holds
/// records, and at most so many others; and a partition that holds records is left aside
/// unweighed only where that many were opened.
pub proof fn lemma_limit_is_used_up(ix: Index, q: QVec, n: u32)
    requires
        ix.nodes@.len() > 0,
        !ix.limits.primary_only,
        ix.limits.max_extra_partitions == Some(n),
    ensures
        ({
            let t = ix.run(q).tally;
            let own = if ix.partitions@[index::key_of(q)].count != 0 {
                1int
            } else {
                0
            };
            &&& own <= t.searched <= own + n
            &&& t.searched + t.pruned <= ix.filled(256)
            &&& t.searched + t.pruned < ix.filled(256) ==> t.searched == own + n
        }),
{
    let key = index::key_of(q);
    let first = ix.begun(key);
    let primary = ix.open_partition(q, ix.partitions@[key], first);
    ix.lemma_open(q, ix.partitions@[key], first);
    ix.lemma_weigh_reach(q, key, 256, primary, n);
    law_partitions_are_accounted_for(ix, q);
    law_counters_are_consistent(ix, q);
}

/// Opening a partition counts it as searched, where it holds records, and counts no other one.
pub proof fn lemma_open_counts(ix: Index, q: QVec, p: PartitionMeta, st: Progress)
    ensures
        ({
            let t = ix.open_partition(q, p, st).tally;
            &&& t.considered == st.tally.considered
            &&& t.searched == st.tally.searched + if p.count == 0 {
                0int
            } else {
                1
            }
            &&& t.pruned == st.tally.pruned
            &&& t.empty == st.tally.empty
            &&& t.extra == st.tally.extra
        }),
{
    ix.lemma_open_counts(q, p, st);
}

/// Scanning records counts neither nodes nor partitions.
pub proof fn lemma_scan_counts(ix: Index, q: QVec, start: nat, count: nat, st: Progress)
    ensures
        ({
            let t = ix.scan(q, start, count, st).tally;
            &&& t.searched == st.tally.searched
            &&& t.visited == st.tally.visited
            &&& t.leaves == st.tally.leaves
            &&& t.node_pruned == st.tally.node_pruned
        }),
{
    ix.lemma_scan_ids(q, start as int, (start + count) as int, st.count_vectors(count));
}

/// Scanning records counts each of them.
pub proof fn lemma_scan_counts_vectors(ix: Index, q: QVec, start: nat, count: nat, st: Progress)
    ensures
        ix.scan(q, start, count, st).tally.vectors == st.tally.vectors + count,
{
    ix.lemma_scan_ids(q, start as int, (start + count) as int, st.count_vectors(count));
}

/// No more partitions are searched than there are.
pub proof fn lemma_searched_bound(ix: Index, q: QVec)
    requires
        ix.nodes@.len() > 0,
    ensures
        ix.run(q).tally.searched <= 256,
{
    law_counters_are_consistent(ix, q);
    lemma_filled_bound(ix, 256);
    if ix.limits.primary_only {
        law_limits_hold(ix, q);
    } else {
        law_partitions_are_accounted_for(ix, q);
    }
}

/// The number of records in the partitions below `k`.
pub open spec fn sizes_below(ix: Index, k: nat) -> nat
    decreases k,
{
    if k == 0 {
        0
    } else {
        sizes_below(ix, (k - 1) as nat) + ix.partitions@[k - 1].count as nat
    }
}

proof fn lemma_sizes(ix: Index, k: nat)
    requires
        k <= 256,
    ensures
        sizes_below(ix, k) == sum_below(|j: int| ix.run_of(j).len(), k),
    decreases k,
{
    if k > 0 {
        lemma_sizes(ix, (k - 1) as nat);
        let p = ix.partitions@[k - 1];
        let lo = p.start as int;
        let hi = p.start + p.count;
        vstd::set_lib::lemma_int_range(lo, hi);
        assert(ix.run_of(k - 1) =~= vstd::set_lib::set_int_range(lo, hi));
    }
}

/// The partitions hold together no more records than there are.
pub proof fn lemma_sizes_bound(ix: Index)
    requires
        ix.sound(),
        ix.nodes@.len() > 0,
    ensures
        sizes_below(ix, 256) <= ix.count,
{
    let sets = |j: int| ix.run_of(j);
    assert forall|j: int| 0 <= j < 256 implies (#[trigger] sets(j)).subset_of(
        exact::range(0, ix.count as int),
    ) by {
        assert(ix.partition_covers(j));
    }
    assert forall|i: int, j: int| 0 <= i < j < 256 implies (#[trigger] sets(i)).disjoint(
        #[trigger] sets(j),
    ) by {
        assert(ix.run_of(i).disjoint(ix.run_of(j)));
    }
    lemma_disjoint_sum(sets, ix.count as int, 256);
    lemma_sizes(ix, 256);
    assert((|j: int| sets(j).len()) =~= (|j: int| ix.run_of(j).len()));
}

} // verus!
