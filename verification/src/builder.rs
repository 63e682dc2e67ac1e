//! Grouping labelled vectors by partition and building the trees of all partitions.
use crate::exact;
use crate::index;
use crate::index::{partition_key, KdNode, PartitionMeta, QVec, PARTITIONS};
use crate::kd;
use crate::kd::{build_kd, BuildRecord, SPLIT_SAMPLE};
use crate::search::{Index, SearchLimits};
use crate::traversal::MAX_LEVELS;
use vstd::prelude::*;

verus! {

impl BuildRecord {
    /// The record of a labelled vector, with the key of its partition.
    pub fn new(qvec: QVec, is_fraud: bool) -> (r: BuildRecord)
        ensures
            r.qvec == qvec,
            r.label == (if is_fraud {
                1u8
            } else {
                0u8
            }),
            r.key == index::key_of(qvec),
    {
        let label: u8 = if is_fraud { 1 } else { 0 };
        BuildRecord { qvec, label, key: partition_key(&qvec) }
    }

    /// The record can be found by a query: it is in the domain and under its own key.
    pub open spec fn proper(self) -> bool {
        self.qvec.in_domain() && self.key == index::key_of(self.qvec)
    }
}

/// The records with key `k`, in their order.
pub open spec fn with_key(s: Seq<BuildRecord>, k: int) -> Seq<BuildRecord>
    decreases s.len(),
{
    if s.len() == 0 {
        Seq::empty()
    } else if s.last().key == k {
        with_key(s.drop_last(), k).push(s.last())
    } else {
        with_key(s.drop_last(), k)
    }
}

/// The number of records with a key below `k`.
pub open spec fn count_below(s: Seq<BuildRecord>, k: int) -> int
    decreases k,
{
    if k <= 0 {
        0
    } else {
        count_below(s, k - 1) + with_key(s, k - 1).len()
    }
}

/// The number of nodes in the trees of the partitions below `k`.
pub open spec fn nodes_below(s: Seq<BuildRecord>, k: int) -> int
    decreases k,
{
    if k <= 0 {
        0
    } else {
        nodes_below(s, k - 1) + nodes_of(s, k - 1)
    }
}

/// The number of nodes in the tree of partition `k`.
pub open spec fn nodes_of(s: Seq<BuildRecord>, k: int) -> int {
    if with_key(s, k).len() == 0 {
        0
    } else {
        kd::tree_nodes(with_key(s, k).len() as int)
    }
}

/// A partition without records.
pub open spec fn is_empty_partition(p: PartitionMeta) -> bool {
    &&& p.start == 0
    &&& p.count == 0
    &&& p.root == -1
    &&& p._pad == 0
    &&& forall|d: int| 0 <= d < 16 ==> #[trigger] p.bbox_min.at(d) == 0
    &&& forall|d: int| 0 <= d < 16 ==> #[trigger] p.bbox_max.at(d) == 0
}

/// The records in the order of the index, and what the index knows of them.
pub struct Built {
    pub records: Vec<BuildRecord>,
    pub partitions: Vec<PartitionMeta>,
    pub partition_node_counts: Vec<u32>,
    pub nodes: Vec<KdNode>,
}

/// Partition `k` holds exactly the entries with key `k`, behind those with smaller keys,
/// under a tree whose nodes stand behind those of the partitions before it.
pub open spec fn partition_built(
    entries: Seq<BuildRecord>,
    records: Seq<BuildRecord>,
    p: PartitionMeta,
    node_count: u32,
    nodes: Seq<KdNode>,
    k: int,
) -> bool {
    let own = with_key(entries, k);
    let lo = count_below(entries, k);
    &&& node_count == nodes_of(entries, k)
    &&& if own.len() == 0 {
        is_empty_partition(p)
    } else {
        let run = records.subrange(lo, lo + own.len());
        &&& p.start == lo
        &&& p.count == own.len()
        &&& p._pad == 0
        &&& p.root == nodes_below(entries, k)
        &&& 0 <= lo
        &&& lo + own.len() <= records.len()
        &&& run.to_multiset() == own.to_multiset()
        &&& kd::tight_box(run, p.bbox_min, p.bbox_max)
        &&& kd::kd_tree(nodes, p.root as int, run, lo)
        &&& own.len() > kd::LEAF_SIZE ==> kd::halved_from(own, run, p.bbox_min, p.bbox_max)
        &&& p.root + node_count <= nodes.len()
    }
}

impl Built {
    /// The built index holds exactly the entries.
    pub open spec fn built_from(self, entries: Seq<BuildRecord>) -> bool {
        &&& self.records@.len() == entries.len()
        &&& self.records@.len() == count_below(entries, 256)
        &&& self.partitions@.len() == 256
        &&& self.partition_node_counts@.len() == 256
        &&& self.nodes@.len() == nodes_below(entries, 256)
        &&& forall|k: int|
            0 <= k < 256 ==> partition_built(
                entries,
                self.records@,
                #[trigger] self.partitions@[k],
                self.partition_node_counts@[k],
                self.nodes@,
                k,
            )
    }
}

proof fn lemma_with_key_len(s: Seq<BuildRecord>, k: int)
    ensures
        with_key(s, k).len() <= s.len(),
    decreases s.len(),
{
    if s.len() > 0 {
        lemma_with_key_len(s.drop_last(), k);
    }
}

proof fn lemma_count_below_push(s: Seq<BuildRecord>, r: BuildRecord, k: int)
    ensures
        count_below(s.push(r), k) == count_below(s, k) + if r.key < k {
            1int
        } else {
            0
        },
    decreases k,
{
    if k > 0 {
        lemma_count_below_push(s, r, k - 1);
        assert(s.push(r).drop_last() =~= s);
    }
}

proof fn lemma_count_below_all(s: Seq<BuildRecord>)
    ensures
        count_below(s, 256) == s.len(),
    decreases s.len(),
{
    if s.len() > 0 {
        lemma_count_below_all(s.drop_last());
        lemma_count_below_push(s.drop_last(), s.last(), 256);
        assert(s.drop_last().push(s.last()) =~= s);
    } else {
        lemma_count_below_nothing(s, 256);
    }
}

proof fn lemma_count_below_nothing(s: Seq<BuildRecord>, k: int)
    requires
        s.len() == 0,
    ensures
        count_below(s, k) == 0,
    decreases k,
{
    if k > 0 {
        lemma_count_below_nothing(s, k - 1);
    }
}

proof fn lemma_count_below_ordered(s: Seq<BuildRecord>, j: int, k: int)
    requires
        j <= k,
    ensures
        0 <= count_below(s, j) <= count_below(s, k),
    decreases k,
{
    if k > 0 {
        if j < k {
            lemma_count_below_ordered(s, j, k - 1);
        } else {
            lemma_count_below_ordered(s, k - 1, k - 1);
        }
    }
}

proof fn lemma_nodes_below(s: Seq<BuildRecord>, k: int)
    requires
        0 <= k <= 256,
    ensures
        0 <= nodes_below(s, k) <= count_below(s, k) / 16 + k,
    decreases k,
{
    if k > 0 {
        lemma_nodes_below(s, k - 1);
        let n = with_key(s, k - 1).len() as int;
        kd::lemma_tree_nodes_bound(n);
        kd::lemma_tree_nodes_positive(n);
    }
}

fn fill_buckets(entries: &[BuildRecord]) -> (r: Vec<Vec<BuildRecord>>)
    ensures
        r@.len() == 256,
        forall|k: int| 0 <= k < 256 ==> (#[trigger] r@[k])@ == with_key(entries@, k),
{
    let mut buckets: Vec<Vec<BuildRecord>> = Vec::new();
    let mut k: usize = 0;
    while k < PARTITIONS
        invariant
            k <= 256,
            buckets@.len() == k,
            forall|j: int| 0 <= j < k ==> (#[trigger] buckets@[j])@ == Seq::<BuildRecord>::empty(),
        decreases 256 - k,
    {
        buckets.push(Vec::new());
        k = k + 1;
    }
    let mut i: usize = 0;
    while i < entries.len()
        invariant
            i <= entries.len(),
            buckets@.len() == 256,
            forall|j: int|
                0 <= j < 256 ==> (#[trigger] buckets@[j])@ == with_key(
                    entries@.take(i as int),
                    j,
                ),
        decreases entries.len() - i,
    {
        let r: BuildRecord = entries[i];
        let ghost before = buckets@;
        let key: usize = r.key as usize;
        buckets[key].push(r);
        proof {
            let done = entries@.take(i as int);
            let next = entries@.take(i + 1);
            assert(next.drop_last() =~= done);
            assert forall|j: int| 0 <= j < 256 implies (#[trigger] buckets@[j])@ == with_key(
                next,
                j,
            ) by {
                assert(before[j]@ == with_key(done, j));
            }
        }
        i = i + 1;
    }
    assert(entries@.take(entries@.len() as int) =~= entries@);
    buckets
}

/// Groups the entries by key and builds the tree of each partition.
pub fn build_partitions(entries: &[BuildRecord]) -> (r: Built)
    requires
        entries@.len() <= u32::MAX,
        entries@.len() * (SPLIT_SAMPLE - 1) <= usize::MAX,
    ensures
        r.built_from(entries@),
{
    let mut buckets: Vec<Vec<BuildRecord>> = fill_buckets(entries);
    let ghost all = entries@;
    let mut records: Vec<BuildRecord> = Vec::new();
    let mut partitions: Vec<PartitionMeta> = Vec::new();
    let mut partition_node_counts: Vec<u32> = Vec::new();
    let mut nodes: Vec<KdNode> = Vec::new();
    proof {
        lemma_count_below_all(all);
    }
    let mut k: usize = 0;
    while k < PARTITIONS
        invariant
            k <= 256,
            all == entries@,
            all.len() <= u32::MAX,
            all.len() * (SPLIT_SAMPLE - 1) <= usize::MAX,
            count_below(all, 256) == all.len(),
            buckets@.len() == 256,
            forall|j: int| k <= j < 256 ==> (#[trigger] buckets@[j])@ == with_key(all, j),
            records@.len() == count_below(all, k as int),
            nodes@.len() == nodes_below(all, k as int),
            partitions@.len() == k,
            partition_node_counts@.len() == k,
            forall|j: int|
                0 <= j < k ==> partition_built(
                    all,
                    records@,
                    #[trigger] partitions@[j],
                    partition_node_counts@[j],
                    nodes@,
                    j,
                ),
        decreases 256 - k,
    {
        let ghost own = with_key(all, k as int);
        let ghost records0 = records@;
        let ghost nodes0 = nodes@;
        let ghost partitions0 = partitions@;
        let ghost counts0 = partition_node_counts@;
        let ghost lo = count_below(all, k as int);
        let start: usize = records.len();
        let node_start: usize = nodes.len();
        proof {
            lemma_count_below_ordered(all, k + 1, 256);
            lemma_nodes_below(all, k as int);
            lemma_nodes_below(all, k + 1);
            lemma_with_key_len(all, k as int);
            assert(own.len() * 511 <= all.len() * 511) by (nonlinear_arith)
                requires
                    own.len() <= all.len(),
            ;
            assert(buckets@[k as int]@ == own);
        }
        let mut bucket: Vec<BuildRecord> = Vec::new();
        std::mem::swap(&mut bucket, &mut buckets[k]);
        if bucket.len() == 0 {
            partitions.push(PartitionMeta::empty());
            partition_node_counts.push(0);
        } else {
            let (root, bbox_min, bbox_max) = build_kd(bucket.as_mut_slice(), start, &mut nodes);
            let ghost run = bucket@;
            proof {
                run.to_multiset_ensures();
                own.to_multiset_ensures();
            }
            partitions.push(
                PartitionMeta {
                    bbox_min,
                    bbox_max,
                    start: start as u32,
                    count: bucket.len() as u32,
                    root: root as i32,
                    _pad: 0,
                },
            );
            partition_node_counts.push((nodes.len() - node_start) as u32);
            records.append(&mut bucket);
            assert(records@ =~= records0 + run);
            assert(records@.subrange(lo, lo + own.len()) =~= run);
        }
        proof {
            assert forall|j: int| 0 <= j < k + 1 implies partition_built(
                all,
                records@,
                #[trigger] partitions@[j],
                partition_node_counts@[j],
                nodes@,
                j,
            ) by {
                if j < k {
                    assert(partition_built(all, records0, partitions0[j], counts0[j], nodes0, j));
                    let c = with_key(all, j);
                    if c.len() > 0 {
                        let a = count_below(all, j);
                        assert(records0.subrange(a, a + c.len()) =~= records@.subrange(
                            a,
                            a + c.len(),
                        ));
                        let root = partitions0[j].root as int;
                        assert forall|x: int| root <= x < root + counts0[j] implies nodes0[x]
                            == #[trigger] nodes@[x] by {
                            assert(nodes@.take(nodes0.len() as int)[x] == nodes0[x]);
                        }
                        kd::lemma_tree_frame(
                            nodes0,
                            nodes@,
                            root,
                            records@.subrange(a, a + c.len()),
                            a,
                        );
                    }
                }
            }
        }
        k = k + 1;
    }
    Built { records, partitions, partition_node_counts, nodes }
}

impl Built {
    /// `ix` holds the records in order, with the partitions and nodes as they were built.
    pub open spec fn held_by(self, ix: Index) -> bool {
        &&& ix.count == self.records@.len()
        &&& ix.vectors@.len() == self.records@.len()
        &&& ix.labels@.len() == self.records@.len()
        &&& forall|i: int|
            0 <= i < self.records@.len() ==> #[trigger] ix.vectors@[i] == self.records@[i].qvec
        &&& forall|i: int|
            0 <= i < self.records@.len() ==> #[trigger] ix.labels@[i] == self.records@[i].label
        &&& ix.partitions@ == self.partitions@
        &&& ix.nodes@ == self.nodes@
    }

    /// The index in memory, without search limits.
    pub fn into_index(self) -> (r: Index)
        ensures
            self.held_by(r),
            r.unlimited(),
    {
        let mut vectors: Vec<QVec> = Vec::new();
        let mut labels: Vec<u8> = Vec::new();
        let mut i: usize = 0;
        while i < self.records.len()
            invariant
                i <= self.records@.len(),
                vectors@.len() == i,
                labels@.len() == i,
                forall|j: int| 0 <= j < i ==> #[trigger] vectors@[j] == self.records@[j].qvec,
                forall|j: int| 0 <= j < i ==> #[trigger] labels@[j] == self.records@[j].label,
            decreases self.records@.len() - i,
        {
            vectors.push(self.records[i].qvec);
            labels.push(self.records[i].label);
            i = i + 1;
        }
        let count: usize = self.records.len();
        Index {
            vectors,
            labels,
            count,
            partitions: self.partitions,
            nodes: self.nodes,
            limits: SearchLimits::none(),
        }
    }
}

/// A tree over `len` records has at most `h` levels.
spec fn depth_fits(len: int, h: nat) -> bool
    decreases h,
{
    &&& h > 0
    &&& len <= kd::LEAF_SIZE || {
        &&& depth_fits(len / 2, (h - 1) as nat)
        &&& depth_fits(len - len / 2, (h - 1) as nat)
    }
}

proof fn lemma_depth_fits(len: int, k: nat, h: nat)
    requires
        0 <= len <= 64 * vstd::arithmetic::power2::pow2(k),
        k < h,
    ensures
        depth_fits(len, h),
    decreases k,
{
    if len > kd::LEAF_SIZE {
        if k == 0 {
            vstd::arithmetic::power2::lemma2_to64();
        } else {
            vstd::arithmetic::power2::lemma_pow2_unfold(k);
            lemma_depth_fits(len / 2, (k - 1) as nat, (h - 1) as nat);
            lemma_depth_fits(len - len / 2, (k - 1) as nat, (h - 1) as nat);
        }
    }
}

impl Index {
    proof fn lemma_box_holds(
        self,
        records: Seq<BuildRecord>,
        bmin: QVec,
        bmax: QVec,
        lo: int,
        hi: int,
    )
        requires
            0 <= lo <= hi <= records.len(),
            kd::tight_box(records.subrange(lo, hi), bmin, bmax),
            forall|i: int| lo <= i < hi ==> #[trigger] self.vectors@[i] == records[i].qvec,
        ensures
            self.boxed(bmin, bmax, lo, hi),
    {
        let run = records.subrange(lo, hi);
        assert forall|id: int| lo <= id < hi implies exact::inside(
            #[trigger] self.vector(id),
            bmin,
            bmax,
        ) by {
            assert(run[id - lo] == records[id]);
            assert(self.vectors@[id] == records[id].qvec);
            assert forall|d: int| 0 <= d < 16 implies bmin.at(d) <= #[trigger] self.vector(id).at(d)
                <= bmax.at(d) by {
                assert(kd::tight_in(run, d, bmin.at(d), bmax.at(d)));
                assert(bmin.at(d) <= run[id - lo].at(d) <= bmax.at(d));
            }
        }
    }

    proof fn lemma_kd_covers(
        self,
        records: Seq<BuildRecord>,
        i: int,
        h: nat,
        lo: int,
        hi: int,
    )
        requires
            0 <= lo <= hi <= records.len(),
            records.len() == self.count,
            kd::kd_tree(self.nodes@, i, records.subrange(lo, hi), lo),
            forall|j: int| lo <= j < hi ==> #[trigger] self.vectors@[j] == records[j].qvec,
            depth_fits(hi - lo, h),
        ensures
            self.covers(i, h, lo, hi),
            self.extent(i, h) == hi - lo,
        decreases h,
    {
        let run = records.subrange(lo, hi);
        let node = self.nodes@[i];
        self.lemma_box_holds(records, node.bbox_min, node.bbox_max, lo, hi);
        if hi - lo > kd::LEAF_SIZE {
            let half = (hi - lo) / 2;
            let mid = lo + half;
            kd::lemma_tree_nodes_positive(half);
            assert(run.take(half) =~= records.subrange(lo, mid));
            assert(run.skip(half) =~= records.subrange(mid, hi));
            self.lemma_kd_covers(records, i + 1, (h - 1) as nat, lo, mid);
            self.lemma_kd_covers(
                records,
                i + 1 + kd::tree_nodes(half),
                (h - 1) as nat,
                mid,
                hi,
            );
        }
    }

    proof fn lemma_covers_ok(self, i: int, h: nat, lo: int, hi: int)
        requires
            self.covers(i, h, lo, hi),
        ensures
            self.tree_ok(i, h),
        decreases h,
    {
        let node = self.nodes@[i];
        if node.left >= 0 {
            let mid = lo + self.extent(node.left as int, (h - 1) as nat);
            self.lemma_covers_ok(node.left as int, (h - 1) as nat, lo, mid);
            self.lemma_covers_ok(node.right as int, (h - 1) as nat, mid, hi);
        }
    }
}

proof fn lemma_with_key_member(s: Seq<BuildRecord>, k: int, i: int) -> (j: int)
    requires
        0 <= i < with_key(s, k).len(),
    ensures
        0 <= j < s.len(),
        s[j] == with_key(s, k)[i],
        s[j].key == k,
    decreases s.len(),
{
    if s.last().key == k && i == with_key(s, k).len() - 1 {
        s.len() - 1
    } else {
        lemma_with_key_member(s.drop_last(), k, i)
    }
}

proof fn lemma_key_of_position(s: Seq<BuildRecord>, id: int, n: int) -> (k: int)
    requires
        0 <= id < count_below(s, n),
    ensures
        0 <= k < n,
        count_below(s, k) <= id < count_below(s, k + 1),
    decreases n,
{
    if id < count_below(s, n - 1) {
        lemma_key_of_position(s, id, n - 1)
    } else {
        n - 1
    }
}

/// Record `id` of partition `k` is one of the entries, and has key `k`.
proof fn lemma_record_source(built: Built, entries: Seq<BuildRecord>, k: int, id: int) -> (j: int)
    requires
        built.built_from(entries),
        0 <= k < 256,
        count_below(entries, k) <= id < count_below(entries, k + 1),
    ensures
        0 <= j < entries.len(),
        entries[j] == built.records@[id],
        entries[j].key == k,
{
    let own = with_key(entries, k);
    let lo = count_below(entries, k);
    let p = built.partitions@[k];
    assert(partition_built(
        entries,
        built.records@,
        p,
        built.partition_node_counts@[k],
        built.nodes@,
        k,
    ));
    let run = built.records@.subrange(lo, lo + own.len());
    run.to_multiset_ensures();
    own.to_multiset_ensures();
    assert(run[id - lo] == built.records@[id]);
    assert(run.contains(run[id - lo]));
    assert(run.to_multiset().count(run[id - lo]) > 0);
    assert(own.contains(run[id - lo]));
    let i = choose|i: int| 0 <= i < own.len() && own[i] == run[id - lo];
    lemma_with_key_member(entries, k, i)
}

/// A record of partition `k` has key `k`.
pub proof fn lemma_key_of_record(built: Built, entries: Seq<BuildRecord>, k: int, id: int)
    requires
        built.built_from(entries),
        0 <= k < 256,
        built.partitions@[k].start <= id < built.partitions@[k].start + built.partitions@[k].count,
    ensures
        built.records@[id].key == k,
{
    assert(partition_built(
        entries,
        built.records@,
        built.partitions@[k],
        built.partition_node_counts@[k],
        built.nodes@,
        k,
    ));
    assert(count_below(entries, k + 1) == count_below(entries, k) + with_key(entries, k).len());
    let j = lemma_record_source(built, entries, k, id);
}

/// Every record of a built index is one of its entries.
pub proof fn law_records_come_from_entries(built: Built, entries: Seq<BuildRecord>, id: int)
    requires
        built.built_from(entries),
        0 <= id < built.records@.len(),
    ensures
        entries.contains(built.records@[id]),
{
    let k = lemma_key_of_position(entries, id, 256);
    let j = lemma_record_source(built, entries, k, id);
}

proof fn lemma_with_key_count(s: Seq<BuildRecord>, k: int, x: BuildRecord)
    ensures
        with_key(s, k).to_multiset().count(x) == if x.key == k {
            s.to_multiset().count(x)
        } else {
            0
        },
    decreases s.len(),
{
    broadcast use vstd::seq_lib::group_to_multiset_ensures;

    if s.len() > 0 {
        let t = s.drop_last();
        lemma_with_key_count(t, k, x);
        assert(s =~= t.push(s.last()));
        assert(s.to_multiset() =~= t.to_multiset().insert(s.last()));
        if s.last().key == k {
            assert(with_key(s, k).to_multiset() =~= with_key(t, k).to_multiset().insert(s.last()));
        }
    } else {
        assert(s.to_multiset().len() == 0);
    }
}

proof fn lemma_prefix_count(built: Built, entries: Seq<BuildRecord>, k: int, x: BuildRecord)
    requires
        built.built_from(entries),
        0 <= k <= 256,
    ensures
        0 <= count_below(entries, k) <= built.records@.len(),
        built.records@.take(count_below(entries, k)).to_multiset().count(x) == if x.key < k {
            entries.to_multiset().count(x)
        } else {
            0
        },
    decreases k,
{
    broadcast use vstd::seq_lib::group_to_multiset_ensures;

    lemma_count_below_ordered(entries, k, 256);
    if k > 0 {
        lemma_prefix_count(built, entries, k - 1, x);
        let lo = count_below(entries, k - 1);
        let hi = count_below(entries, k);
        let own = with_key(entries, k - 1);
        let a = built.records@.take(lo);
        let run = built.records@.subrange(lo, hi);
        assert(partition_built(
            entries,
            built.records@,
            built.partitions@[k - 1],
            built.partition_node_counts@[k - 1],
            built.nodes@,
            k - 1,
        ));
        if own.len() == 0 {
            assert(run =~= own);
        }
        assert(run.to_multiset() == own.to_multiset());
        assert(built.records@.take(hi) =~= a + run);
        vstd::seq_lib::lemma_multiset_commutative(a, run);
        lemma_with_key_count(entries, k - 1, x);
    } else {
        assert(built.records@.take(0).to_multiset().len() == 0);
    }
}

/// A built index holds every entry as often as it was given: nothing is lost, nothing is
/// added.
pub proof fn law_records_are_the_entries(built: Built, entries: Seq<BuildRecord>)
    requires
        built.built_from(entries),
    ensures
        built.records@.to_multiset() == entries.to_multiset(),
{
    assert forall|x: BuildRecord| #[trigger] built.records@.to_multiset().count(x)
        == entries.to_multiset().count(x) by {
        lemma_prefix_count(built, entries, 256, x);
        assert(built.records@.take(count_below(entries, 256)) =~= built.records@);
    }
    assert(built.records@.to_multiset() =~= entries.to_multiset());
}

/// The vectors of a partition are those whose key is the partition's: the partition that a
/// query opens first is the one of its own key.
pub proof fn law_partition_holds_its_key(
    built: Built,
    entries: Seq<BuildRecord>,
    ix: Index,
    k: int,
    id: int,
)
    requires
        built.built_from(entries),
        built.held_by(ix),
        forall|i: int| 0 <= i < entries.len() ==> (#[trigger] entries[i]).proper(),
        0 <= k < 256,
        ix.run_of(k).contains(id),
    ensures
        index::key_of(ix.vector(id)) == k,
{
    let p = built.partitions@[k];
    assert(partition_built(
        entries,
        built.records@,
        p,
        built.partition_node_counts@[k],
        built.nodes@,
        k,
    ));
    assert(count_below(entries, k + 1) == count_below(entries, k) + with_key(entries, k).len());
    let j = lemma_record_source(built, entries, k, id);
    assert(entries[j].proper());
}

/// A built index is sound: searching it is exact.
pub proof fn law_built_index_is_sound(built: Built, entries: Seq<BuildRecord>, ix: Index)
    requires
        built.built_from(entries),
        built.held_by(ix),
        entries.len() <= u32::MAX,
        forall|i: int| 0 <= i < entries.len() ==> (#[trigger] entries[i]).proper(),
    ensures
        ix.sound(),
{
    let records = built.records@;
    assert forall|id: int| 0 <= id < ix.count implies (#[trigger] ix.vector(id)).in_domain() by {
        let k = lemma_key_of_position(entries, id, 256);
        let j = lemma_record_source(built, entries, k, id);
        assert(entries[j].proper());
    }
    assert forall|k: int| 0 <= k < 256 implies #[trigger] ix.partition_covers(k) && ix.partition_ok(
        ix.partitions@[k],
    ) by {
        let p = built.partitions@[k];
        assert(partition_built(
            entries,
            records,
            p,
            built.partition_node_counts@[k],
            built.nodes@,
            k,
        ));
        let own = with_key(entries, k);
        if own.len() > 0 {
            let lo = count_below(entries, k);
            let hi = lo + own.len();
            ix.lemma_box_holds(records, p.bbox_min, p.bbox_max, lo, hi);
            lemma_nodes_below(entries, k);
            vstd::arithmetic::power2::lemma2_to64();
            lemma_depth_fits(own.len() as int, 32, 128);
            ix.lemma_kd_covers(records, p.root as int, 128, lo, hi);
            ix.lemma_covers_ok(p.root as int, 128, lo, hi);
        }
    }
    assert forall|k: int| 0 <= k < 256 implies ix.partition_ok(#[trigger] ix.partitions@[k]) by {
        assert(ix.partition_covers(k));
    }
    assert forall|id: int| 0 <= id < ix.count implies #[trigger] ix.held(id) by {
        let k = lemma_key_of_position(entries, id, 256);
        let p = built.partitions@[k];
        assert(partition_built(
            entries,
            records,
            p,
            built.partition_node_counts@[k],
            built.nodes@,
            k,
        ));
        assert(ix.run_of(k).contains(id));
    }
    assert forall|j: int, k: int| 0 <= j < k < 256 implies (#[trigger] ix.run_of(j)).disjoint(
        #[trigger] ix.run_of(k),
    ) by {
        assert(partition_built(
            entries,
            records,
            built.partitions@[j],
            built.partition_node_counts@[j],
            built.nodes@,
            j,
        ));
        assert(partition_built(
            entries,
            records,
            built.partitions@[k],
            built.partition_node_counts@[k],
            built.nodes@,
            k,
        ));
        lemma_count_below_ordered(entries, j + 1, k);
    }
}

impl Index {
    /// The nodes of a tree stand behind its root, each once.
    proof fn lemma_kd_branches(self, i: int, h: nat, recs: Seq<BuildRecord>, g: int)
        requires
            kd::kd_tree(self.nodes@, i, recs, g),
        ensures
            self.branches(i, h),
            self.below(i, h).subset_of(
                exact::range(i, i + kd::tree_nodes(recs.len() as int)),
            ),
        decreases h,
    {
        let mid = recs.len() as int / 2;
        kd::lemma_tree_nodes_positive(recs.len() as int);
        if h > 0 && recs.len() > kd::LEAF_SIZE {
            kd::lemma_tree_nodes_positive(mid);
            kd::lemma_tree_nodes_positive(recs.len() - mid);
            self.lemma_kd_branches(i + 1, (h - 1) as nat, recs.take(mid), g);
            self.lemma_kd_branches(
                i + 1 + kd::tree_nodes(mid),
                (h - 1) as nat,
                recs.skip(mid),
                g + mid,
            );
            assert(kd::tree_nodes(recs.len() as int) == 1 + kd::tree_nodes(mid) + kd::tree_nodes(
                recs.skip(mid).len() as int,
            ));
            assert forall|x: int| self.below(i, h).contains(x) implies exact::range(
                i,
                i + kd::tree_nodes(recs.len() as int),
            ).contains(x) by {
                let l = self.below(i + 1, (h - 1) as nat);
                let r = self.below(i + 1 + kd::tree_nodes(mid), (h - 1) as nat);
                assert(x == i || l.contains(x) || r.contains(x));
                assert(recs.take(mid).len() == mid);
            }
        }
    }
}

proof fn lemma_nodes_below_ordered(s: Seq<BuildRecord>, j: int, k: int)
    requires
        0 <= j <= k,
    ensures
        nodes_below(s, j) <= nodes_below(s, k),
    decreases k,
{
    if j < k {
        lemma_nodes_below_ordered(s, j, k - 1);
        kd::lemma_tree_nodes_positive(with_key(s, k - 1).len() as int);
    }
}

/// The trees of a built index share no node.
pub proof fn law_built_trees_share_no_node(built: Built, entries: Seq<BuildRecord>, ix: Index)
    requires
        built.built_from(entries),
        built.held_by(ix),
    ensures
        ix.unshared(),
{
    assert forall|k: int| 0 <= k < 256 implies #[trigger] ix.tree_of(k).subset_of(
        exact::range(nodes_below(entries, k), nodes_below(entries, k + 1)),
    ) && ((ix.partitions@[k].count != 0 && ix.partitions@[k].root >= 0) ==> ix.branches(
        ix.partitions@[k].root as int,
        MAX_LEVELS as nat,
    )) by {
        let p = built.partitions@[k];
        assert(partition_built(
            entries,
            built.records@,
            p,
            built.partition_node_counts@[k],
            built.nodes@,
            k,
        ));
        let own = with_key(entries, k);
        if own.len() > 0 {
            let lo = count_below(entries, k);
            let run = built.records@.subrange(lo, lo + own.len());
            ix.lemma_kd_branches(p.root as int, MAX_LEVELS as nat, run, lo);
        }
    }
    assert forall|k: int|
        0 <= k < 256 && (#[trigger] ix.partitions@[k]).count != 0 && ix.partitions@[k].root
            >= 0 implies ix.branches(ix.partitions@[k].root as int, MAX_LEVELS as nat) by {
        assert(ix.tree_of(k).subset_of(
            exact::range(nodes_below(entries, k), nodes_below(entries, k + 1)),
        ));
    }
    assert forall|j: int, k: int| 0 <= j < k < 256 implies (#[trigger] ix.tree_of(j)).disjoint(
        #[trigger] ix.tree_of(k),
    ) by {
        assert(ix.tree_of(j).subset_of(
            exact::range(nodes_below(entries, j), nodes_below(entries, j + 1)),
        ));
        assert(ix.tree_of(k).subset_of(
            exact::range(nodes_below(entries, k), nodes_below(entries, k + 1)),
        ));
        lemma_nodes_below_ordered(entries, j + 1, k);
    }
}

} // verus!
