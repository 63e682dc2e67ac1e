//! Checking that the parts of an index fit together.
use crate::index::{KdNode, PartitionMeta, PARTITIONS};
use crate::search::Index;
use crate::traversal::MAX_LEVELS;
use vstd::prelude::*;

verus! {

impl Index {
    /// Which nodes are roots of trees, one level deeper than those in `shallower`.
    fn deeper(&self, shallower: &Vec<bool>, Ghost(h): Ghost<nat>) -> (r: Vec<bool>)
        requires
            shallower@.len() == self.nodes@.len(),
            forall|i: int|
                0 <= i < shallower@.len() ==> #[trigger] shallower@[i] == self.tree_ok(i, h),
        ensures
            r@.len() == self.nodes@.len(),
            forall|i: int| 0 <= i < r@.len() ==> #[trigger] r@[i] == self.tree_ok(i, h + 1),
    {
        let len: usize = self.nodes.len();
        let mut r: Vec<bool> = Vec::new();
        let mut i: usize = 0;
        while i < len
            invariant
                i <= len,
                len == self.nodes@.len(),
                r@.len() == i,
                shallower@.len() == len,
                forall|i: int|
                    0 <= i < len ==> #[trigger] shallower@[i] == self.tree_ok(i, h),
                forall|j: int| 0 <= j < i ==> #[trigger] r@[j] == self.tree_ok(j, h + 1),
            decreases len - i,
        {
            let node: KdNode = self.nodes[i];
            let ok: bool = if node.left < 0 {
                node.start as u64 + node.count as u64 <= self.count as u64
            } else {
                self.is_marked(shallower, node.left, Ghost(h)) && self.is_marked(
                    shallower,
                    node.right,
                    Ghost(h),
                )
            };
            r.push(ok);
            i = i + 1;
        }
        r
    }

    fn is_marked(&self, marks: &Vec<bool>, i: i32, Ghost(h): Ghost<nat>) -> (r: bool)
        requires
            marks@.len() == self.nodes@.len(),
            forall|i: int| 0 <= i < marks@.len() ==> #[trigger] marks@[i] == self.tree_ok(i, h),
        ensures
            r == self.tree_ok(i as int, h),
    {
        i >= 0 && (i as u64) < marks.len() as u64 && marks[i as usize]
    }

    /// Which nodes are roots of trees that the traversal stack can hold.
    fn tree_roots(&self) -> (r: Vec<bool>)
        ensures
            r@.len() == self.nodes@.len(),
            forall|i: int|
                0 <= i < r@.len() ==> #[trigger] r@[i] == self.tree_ok(i, MAX_LEVELS as nat),
    {
        let mut marks: Vec<bool> = Vec::new();
        while marks.len() < self.nodes.len()
            invariant
                marks@.len() <= self.nodes@.len(),
                forall|i: int| 0 <= i < marks@.len() ==> #[trigger] marks@[i] == self.tree_ok(i, 0),
            decreases self.nodes@.len() - marks@.len(),
        {
            marks.push(false);
        }
        let mut h: usize = 0;
        while h < MAX_LEVELS
            invariant
                h <= MAX_LEVELS,
                marks@.len() == self.nodes@.len(),
                forall|i: int|
                    0 <= i < marks@.len() ==> #[trigger] marks@[i] == self.tree_ok(i, h as nat),
            decreases MAX_LEVELS - h,
        {
            marks = self.deeper(&marks, Ghost(h as nat));
            h = h + 1;
        }
        marks
    }

    fn is_partition_ok(&self, p: &PartitionMeta, roots: &Vec<bool>) -> (r: bool)
        requires
            roots@.len() == self.nodes@.len(),
            forall|i: int|
                0 <= i < roots@.len() ==> #[trigger] roots@[i] == self.tree_ok(
                    i,
                    MAX_LEVELS as nat,
                ),
        ensures
            r == self.partition_ok(*p),
    {
        if p.count == 0 {
            true
        } else if p.root < 0 {
            p.start as u64 + p.count as u64 <= self.count as u64
        } else {
            self.is_marked(roots, p.root, Ghost(MAX_LEVELS as nat))
        }
    }

    /// Whether the index can be searched. Nodes that trees share are looked at once for each
    /// level, however often they are shared.
    pub fn is_searchable(&self) -> (r: bool)
        ensures
            r == self.searchable(),
    {
        if self.vectors.len() != self.count || self.labels.len() != self.count
            || self.partitions.len() != PARTITIONS {
            return false;
        }
        if self.nodes.len() == 0 {
            return true;
        }
        let roots: Vec<bool> = self.tree_roots();
        let mut k: usize = 0;
        while k < PARTITIONS
            invariant
                k <= 256,
                roots@.len() == self.nodes@.len(),
                forall|i: int|
                    0 <= i < roots@.len() ==> #[trigger] roots@[i] == self.tree_ok(
                        i,
                        MAX_LEVELS as nat,
                    ),
                self.partitions@.len() == 256,
                self.nodes@.len() > 0,
                forall|j: int| 0 <= j < k ==> self.partition_ok(#[trigger] self.partitions@[j]),
            decreases 256 - k,
        {
            if !self.is_partition_ok(&self.partitions[k], &roots) {
                assert(!self.partition_ok(self.partitions@[k as int]));
                return false;
            }
            k = k + 1;
        }
        true
    }
}

} // verus!
