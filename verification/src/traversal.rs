//! What a search does, as a function from one state of its progress to the next.
use crate::distance;
use crate::index;
use crate::index::{PartitionMeta, QVec};
use crate::search::Index;
use crate::top5;
use vstd::prelude::*;

verus! {

/// The deepest tree, in levels, that the traversal stack can hold.
pub const MAX_LEVELS: usize = 128;

/// A place among the nearest: a distance and the vector that it belongs to, or the
/// largest distance and no vector (`-1`).
pub struct Neighbor {
    pub dist: int,
    pub id: int,
}

/// What a search has counted.
pub struct Tally {
    pub considered: nat,
    pub searched: nat,
    pub pruned: nat,
    pub empty: nat,
    pub visited: nat,
    pub node_pruned: nat,
    pub leaves: nat,
    pub vectors: nat,
    pub stage8: nat,
    pub full: nat,
    /// Partitions opened beside the primary one.
    pub extra: nat,
}

/// The nearest so far, in ascending order, and the tally.
pub struct Progress {
    pub top: Seq<Neighbor>,
    pub tally: Tally,
}

impl Progress {
    /// Nothing found, nothing counted.
    pub open spec fn start() -> Progress {
        Progress {
            top: Seq::new(5, |i: int| Neighbor { dist: i32::MAX as int, id: -1 }),
            tally: Tally {
                considered: 0,
                searched: 0,
                pruned: 0,
                empty: 0,
                visited: 0,
                node_pruned: 0,
                leaves: 0,
                vectors: 0,
                stage8: 0,
                full: 0,
                extra: 0,
            },
        }
    }

    /// The distance that a newcomer has to beat.
    pub open spec fn worst(self) -> int {
        self.top[4].dist
    }

    pub open spec fn count_considered(self) -> Progress {
        Progress { tally: Tally { considered: self.tally.considered + 1, ..self.tally }, ..self }
    }

    pub open spec fn count_searched(self) -> Progress {
        Progress { tally: Tally { searched: self.tally.searched + 1, ..self.tally }, ..self }
    }

    pub open spec fn count_pruned(self) -> Progress {
        Progress { tally: Tally { pruned: self.tally.pruned + 1, ..self.tally }, ..self }
    }

    pub open spec fn count_empty(self) -> Progress {
        Progress { tally: Tally { empty: self.tally.empty + 1, ..self.tally }, ..self }
    }

    pub open spec fn count_visited(self) -> Progress {
        Progress { tally: Tally { visited: self.tally.visited + 1, ..self.tally }, ..self }
    }

    pub open spec fn count_node_pruned(self) -> Progress {
        Progress { tally: Tally { node_pruned: self.tally.node_pruned + 1, ..self.tally }, ..self }
    }

    pub open spec fn count_leaf(self) -> Progress {
        Progress { tally: Tally { leaves: self.tally.leaves + 1, ..self.tally }, ..self }
    }

    pub open spec fn count_vectors(self, n: nat) -> Progress {
        Progress { tally: Tally { vectors: self.tally.vectors + n, ..self.tally }, ..self }
    }

    pub open spec fn count_stage8(self) -> Progress {
        Progress { tally: Tally { stage8: self.tally.stage8 + 1, ..self.tally }, ..self }
    }

    pub open spec fn count_full(self) -> Progress {
        Progress { tally: Tally { full: self.tally.full + 1, ..self.tally }, ..self }
    }

    pub open spec fn count_extra(self) -> Progress {
        Progress { tally: Tally { extra: self.tally.extra + 1, ..self.tally }, ..self }
    }

    /// Takes `id` in at distance `d`, behind those that are as near, if that beats the worst.
    pub open spec fn offer(self, d: int, id: int) -> Progress {
        if d < self.worst() {
            let dists = Seq::new(5, |i: int| self.top[i].dist);
            let p = top5::slot(dists, d, 4) as int;
            Progress { top: top5::placed(self.top, p, Neighbor { dist: d, id }), ..self }
        } else {
            self
        }
    }
}

impl Index {
    pub open spec fn vector(self, id: int) -> QVec {
        self.vectors@[id]
    }

    /// Vector `id` is labelled as fraud; no vector is not.
    pub open spec fn fraud(self, id: int) -> bool {
        id >= 0 && self.labels@[id] != 0
    }

    /// Compares one vector, stage by stage.
    pub open spec fn scan_one(self, q: QVec, id: int, st: Progress) -> Progress {
        let v = self.vector(id);
        if distance::hot_bound(q, v) >= st.worst() {
            st
        } else if distance::mid_bound(q, v) >= st.worst() {
            st.count_stage8()
        } else {
            st.count_full().offer(distance::distance(q, v), id)
        }
    }

    /// Compares the vectors `lo .. hi` in order.
    pub open spec fn scan_ids(self, q: QVec, lo: int, hi: int, st: Progress) -> Progress
        decreases hi - lo,
    {
        if lo >= hi {
            st
        } else {
            self.scan_one(q, hi - 1, self.scan_ids(q, lo, hi - 1, st))
        }
    }

    /// Scans a run of records.
    pub open spec fn scan(self, q: QVec, start: nat, count: nat, st: Progress) -> Progress {
        self.scan_ids(q, start as int, (start + count) as int, st.count_vectors(count))
    }

    /// The lower bound of node `i`.
    pub open spec fn node_bound(self, q: QVec, i: int) -> int {
        distance::box_distance(q, self.nodes@[i].bbox_min, self.nodes@[i].bbox_max)
    }

    /// Visits node `i`, at most `h` levels deep. An inner node hands on those of its
    /// children that could hold something nearer than the worst neighbour at that moment,
    /// the nearer child first (the right one where both are as near).
    pub open spec fn visit(self, q: QVec, i: int, h: nat, st: Progress) -> Progress
        decreases h,
    {
        if h == 0 {
            st
        } else {
            let node = self.nodes@[i];
            let seen = st.count_visited();
            if self.node_bound(q, i) >= seen.worst() {
                seen.count_node_pruned()
            } else if node.left < 0 {
                self.scan(q, node.start as nat, node.count as nat, seen.count_leaf())
            } else {
                let left_first = self.node_bound(q, node.left as int) < self.node_bound(
                    q,
                    node.right as int,
                );
                let near = if left_first {
                    node.left as int
                } else {
                    node.right as int
                };
                let far = if left_first {
                    node.right as int
                } else {
                    node.left as int
                };
                let after_near = if self.node_bound(q, near) < seen.worst() {
                    self.visit(q, near, (h - 1) as nat, seen)
                } else {
                    seen
                };
                if self.node_bound(q, far) < seen.worst() {
                    self.visit(q, far, (h - 1) as nat, after_near)
                } else {
                    after_near
                }
            }
        }
    }

    /// Opens a partition: its tree, or its records one by one where it has none.
    pub open spec fn open_partition(self, q: QVec, p: PartitionMeta, st: Progress) -> Progress {
        if p.count == 0 {
            st
        } else if p.root < 0 {
            self.scan(q, p.start as nat, p.count as nat, st.count_searched())
        } else {
            self.visit(q, p.root as int, MAX_LEVELS as nat, st.count_searched())
        }
    }

    /// One more extra partition may be opened.
    pub open spec fn may_open(self, st: Progress) -> bool {
        match self.limits.max_extra_partitions {
            Some(n) => st.tally.extra < n,
            None => true,
        }
    }

    /// Weighs partition `k` beside the primary one: opens it if its box could hold
    /// something nearer than the worst neighbour.
    pub open spec fn weigh(self, q: QVec, k: int, st: Progress) -> Progress {
        let p = self.partitions@[k];
        if p.count == 0 {
            st.count_empty()
        } else if distance::box_distance(q, p.bbox_min, p.bbox_max)
            >= st.count_considered().worst() {
            st.count_considered().count_pruned()
        } else if self.may_open(st) {
            self.open_partition(q, p, st.count_considered().count_extra())
        } else {
            st.count_considered()
        }
    }

    /// Weighs the partitions below `k` in order, but for the primary one.
    pub open spec fn weigh_below(self, q: QVec, key: int, k: nat, st: Progress) -> Progress
        decreases k,
    {
        if k == 0 {
            st
        } else {
            let before = self.weigh_below(q, key, (k - 1) as nat, st);
            if k - 1 == key {
                before
            } else {
                self.weigh(q, k - 1, before)
            }
        }
    }

    /// How a search begins: the primary partition is considered, or it is empty.
    pub open spec fn begun(self, key: int) -> Progress {
        if self.partitions@[key].count == 0 {
            Progress::start().count_empty()
        } else {
            Progress::start().count_considered()
        }
    }

    /// A whole search: the partition of the query's own key, then the others. Without
    /// nodes, all vectors in order.
    pub open spec fn run(self, q: QVec) -> Progress {
        if self.nodes@.len() == 0 {
            self.scan(q, 0, self.count as nat, Progress::start())
        } else {
            let key = index::key_of(q);
            let primary = self.open_partition(q, self.partitions@[key], self.begun(key));
            if self.limits.primary_only {
                primary
            } else {
                self.weigh_below(q, key, 256, primary)
            }
        }
    }

    /// The number of frauds among the nearest.
    pub open spec fn votes(self, st: Progress) -> nat {
        top5::count_set(Seq::new(5, |i: int| self.fraud(st.top[i].id)))
    }

    /// The tree below node `i` is finite, at most `h` levels deep, and its leaves hold
    /// records that exist.
    pub open spec fn tree_ok(self, i: int, h: nat) -> bool
        decreases h,
    {
        &&& h > 0
        &&& 0 <= i < self.nodes@.len()
        &&& {
            let node = self.nodes@[i];
            if node.left < 0 {
                node.start + node.count <= self.count
            } else {
                &&& self.tree_ok(node.left as int, (h - 1) as nat)
                &&& self.tree_ok(node.right as int, (h - 1) as nat)
            }
        }
    }

    /// Partition `p` can be opened.
    pub open spec fn partition_ok(self, p: PartitionMeta) -> bool {
        p.count != 0 ==> if p.root < 0 {
            p.start + p.count <= self.count
        } else {
            self.tree_ok(p.root as int, MAX_LEVELS as nat)
        }
    }

    /// The parts of the index fit together: what the search follows leads to what exists,
    /// through trees that the traversal stack can hold.
    pub open spec fn searchable(self) -> bool {
        &&& self.vectors@.len() == self.count
        &&& self.labels@.len() == self.count
        &&& self.partitions@.len() == 256
        &&& self.nodes@.len() > 0 ==> forall|k: int|
            0 <= k < 256 ==> self.partition_ok(#[trigger] self.partitions@[k])
    }

    /// An upper bound for the nodes that a visit of node `i` touches.
    pub open spec fn weight(self, i: int, h: nat) -> nat
        decreases h,
    {
        if h == 0 {
            0
        } else {
            1 + self.weight(self.nodes@[i].left as int, (h - 1) as nat) + self.weight(
                self.nodes@[i].right as int,
                (h - 1) as nat,
            )
        }
    }

    /// The progress after all that the stack still holds, the last entry first.
    pub open spec fn drain(
        self,
        q: QVec,
        stack: Seq<u32>,
        levels: Seq<nat>,
        st: Progress,
    ) -> Progress
        decreases stack.len(),
    {
        if stack.len() == 0 {
            st
        } else {
            self.drain(
                q,
                stack.drop_last(),
                levels.drop_last(),
                self.visit(q, stack.last() as int, levels.last(), st),
            )
        }
    }

    /// The sum of the weights of all that the stack still holds.
    pub open spec fn burden(self, stack: Seq<u32>, levels: Seq<nat>) -> nat
        decreases stack.len(),
    {
        if stack.len() == 0 {
            0
        } else {
            self.burden(stack.drop_last(), levels.drop_last()) + self.weight(
                stack.last() as int,
                levels.last(),
            )
        }
    }
}

} // verus!
