//! Where everything stands in the files of an index, byte by byte.
use crate::bytes;
use crate::bytes::{write_i16, write_i32, write_u32, write_u64};
use crate::index::{KdNode, PartitionMeta, QVec};
use crate::kd::BuildRecord;
use crate::layout;
use crate::layout::write_index_file;
use crate::load;
use crate::load::{parse_partition_files, IndexError};
use crate::roundtrip;
use crate::search::{Index, SearchLimits};
use vstd::prelude::*;

verus! {

/// The number in the `n` bytes at `at`, the last of which weighs most.
pub open spec fn little(data: Seq<u8>, at: int, n: nat) -> int
    decreases n,
{
    if n == 0 {
        0
    } else {
        data[at] + 256 * little(data, at + 1, (n - 1) as nat)
    }
}

/// A number of which the upper half of the range `m` counts as negative.
pub open spec fn with_sign(u: int, m: int) -> int {
    if 2 * u >= m {
        u - m
    } else {
        u
    }
}

/// The coordinate in the two bytes at `at`.
pub open spec fn coordinate(data: Seq<u8>, at: int) -> int {
    with_sign(little(data, at, 2), 65_536)
}

/// The link to a node in the four bytes at `at`.
pub open spec fn link(data: Seq<u8>, at: int) -> int {
    with_sign(little(data, at, 4), 4_294_967_296)
}

pub proof fn lemma_little(data: Seq<u8>, at: int)
    ensures
        bytes::u32_at(data, at) == little(data, at, 4),
        bytes::u64_at(data, at) == little(data, at, 8),
        bytes::i16_at(data, at) == coordinate(data, at),
        bytes::i32_at(data, at) == link(data, at),
{
    reveal_with_fuel(little, 9);
}

/// A number of 32 bits is written in four bytes, the last of which weighs most.
pub proof fn law_u32_is_little_endian(w: &mut Vec<u8>, v: u32)
    requires
        call_ensures(write_u32, (w, v), ()),
    ensures
        final(w)@.len() == old(w)@.len() + 4,
        final(w)@.take(old(w)@.len() as int) == old(w)@,
        little(final(w)@, old(w)@.len() as int, 4) == v,
{
    reveal_with_fuel(little, 5);
    assert(final(w)@.take(old(w)@.len() as int) =~= old(w)@);
}

/// A number of 64 bits is written in eight bytes, the last of which weighs most.
pub proof fn law_u64_is_little_endian(w: &mut Vec<u8>, v: u64)
    requires
        call_ensures(write_u64, (w, v), ()),
    ensures
        final(w)@.len() == old(w)@.len() + 8,
        final(w)@.take(old(w)@.len() as int) == old(w)@,
        little(final(w)@, old(w)@.len() as int, 8) == v,
{
    let at = old(w)@.len() as int;
    assert(final(w)@.take(at) =~= old(w)@);
    assert(final(w)@.subrange(at, at + 8) =~= bytes::u64_bytes(v));
    bytes::law_u64_reads_back(final(w)@, at, v);
    lemma_little(final(w)@, at);
}

/// A signed number of 32 bits is written as a link is read.
pub proof fn law_i32_is_little_endian(w: &mut Vec<u8>, v: i32)
    requires
        call_ensures(write_i32, (w, v), ()),
    ensures
        final(w)@.len() == old(w)@.len() + 4,
        final(w)@.take(old(w)@.len() as int) == old(w)@,
        link(final(w)@, old(w)@.len() as int) == v,
{
    reveal_with_fuel(little, 5);
    assert(final(w)@.take(old(w)@.len() as int) =~= old(w)@);
}

/// A signed number of 16 bits is written as a coordinate is read.
pub proof fn law_i16_is_little_endian(w: &mut Vec<u8>, v: i16)
    requires
        call_ensures(write_i16, (w, v), ()),
    ensures
        final(w)@.len() == old(w)@.len() + 2,
        final(w)@.take(old(w)@.len() as int) == old(w)@,
        coordinate(final(w)@, old(w)@.len() as int) == v,
{
    reveal_with_fuel(little, 3);
    assert(final(w)@.take(old(w)@.len() as int) =~= old(w)@);
}

/// The sixteen coordinates of `q` stand at `at`.
pub open spec fn vector_stands(data: Seq<u8>, at: int, q: QVec) -> bool {
    forall|d: int| 0 <= d < 16 ==> #[trigger] q.at(d) == coordinate(data, at + 2 * d)
}

/// A partition stands at `at`: where its records start, how many they are, the root of its
/// tree, and behind the number of its nodes the corners of its box.
pub open spec fn partition_stands(data: Seq<u8>, at: int, p: PartitionMeta) -> bool {
    &&& p.start == little(data, at, 4)
    &&& p.count == little(data, at + 4, 4)
    &&& p.root == link(data, at + 8)
    &&& vector_stands(data, at + 16, p.bbox_min)
    &&& vector_stands(data, at + 48, p.bbox_max)
}

/// A node stands at `at`: the corners of its box, its children, and its records.
pub open spec fn node_stands(data: Seq<u8>, at: int, n: KdNode) -> bool {
    &&& vector_stands(data, at, n.bbox_min)
    &&& vector_stands(data, at + 32, n.bbox_max)
    &&& n.left == link(data, at + 64)
    &&& n.right == link(data, at + 68)
    &&& n.start == little(data, at + 72, 4)
    &&& n.count == little(data, at + 76, 4)
}

/// The sum of the counts of the first `k` partitions that stand at `at`.
pub open spec fn counts_at(data: Seq<u8>, at: int, k: nat) -> int
    decreases k,
{
    if k == 0 {
        0
    } else {
        counts_at(data, at, (k - 1) as nat) + little(data, at + 80 * (k - 1) + 4, 4)
    }
}

/// `RINHIDX5`.
pub open spec fn partitions_mark() -> Seq<u8> {
    seq![0x52u8, 0x49, 0x4e, 0x48, 0x49, 0x44, 0x58, 0x35]
}

/// `RINHIF03`.
pub open spec fn file_mark() -> Seq<u8> {
    seq![0x52u8, 0x49, 0x4e, 0x48, 0x49, 0x46, 0x30, 0x33]
}

/// The partitions and the nodes are those of a split index with `count` records.
pub open spec fn trees_fit(pdata: Seq<u8>, ndata: Seq<u8>, count: int) -> bool {
    &&& pdata.len() >= 20_508
    &&& pdata.take(8) == partitions_mark()
    &&& little(pdata, 8, 4) == 5
    &&& little(pdata, 12, 8) == count
    &&& counts_at(pdata, 28, 256) == count
    &&& ndata.len() == 80 * little(pdata, 20, 8)
}

/// The partitions and nodes are those that stand in the sections.
pub open spec fn trees_stand(
    pdata: Seq<u8>,
    ndata: Seq<u8>,
    partitions: Seq<PartitionMeta>,
    nodes: Seq<KdNode>,
) -> bool {
    &&& partitions.len() == 256
    &&& forall|k: int|
        0 <= k < 256 ==> partition_stands(pdata, 28 + 80 * k, #[trigger] partitions[k])
    &&& ndata.len() == 80 * nodes.len()
    &&& forall|i: int| 0 <= i < nodes.len() ==> node_stands(ndata, 80 * i, #[trigger] nodes[i])
}

pub proof fn lemma_qvec(data: Seq<u8>, at: int, q: QVec)
    requires
        bytes::is_qvec_at(data, at, q),
    ensures
        vector_stands(data, at, q),
{
    assert forall|d: int| 0 <= d < 16 implies #[trigger] q.at(d) == coordinate(
        data,
        at + 2 * d,
    ) by {
        lemma_little(data, at + 2 * d);
    }
}

pub proof fn lemma_counted(data: Seq<u8>, k: nat)
    ensures
        load::counted(data, k as int) == counts_at(data, 28, k),
    decreases k,
{
    if k > 0 {
        lemma_counted(data, (k - 1) as nat);
        lemma_little(data, 28 + 80 * (k - 1) + 4);
    }
}

proof fn lemma_trees_fit(pdata: Seq<u8>, ndata: Seq<u8>, count: int)
    ensures
        load::partition_files_error(pdata, ndata, count) is None <==> trees_fit(
            pdata,
            ndata,
            count,
        ),
{
    assert(crate::index::PARTITIONS_MAGIC@ =~= partitions_mark());
    if pdata.len() >= 8 {
        assert(pdata.take(8) =~= pdata.subrange(0, 8));
    }
    lemma_little(pdata, 8);
    lemma_little(pdata, 12);
    lemma_little(pdata, 20);
    lemma_counted(pdata, 256);
}

pub proof fn lemma_node(data: Seq<u8>, i: int, node: KdNode)
    requires
        load::is_node_at(data, i, node),
    ensures
        node_stands(data, 80 * i, node),
{
    let at = 80 * i;
    lemma_little(data, at + 64);
    lemma_little(data, at + 68);
    lemma_little(data, at + 72);
    lemma_little(data, at + 76);
    lemma_qvec(data, at, node.bbox_min);
    lemma_qvec(data, at + 32, node.bbox_max);
}

proof fn lemma_trees_stand(
    pdata: Seq<u8>,
    ndata: Seq<u8>,
    partitions: Seq<PartitionMeta>,
    nodes: Seq<KdNode>,
)
    requires
        load::are_partitions(pdata, partitions),
        load::are_nodes(ndata, nodes),
    ensures
        trees_stand(pdata, ndata, partitions, nodes),
{
    assert forall|k: int| 0 <= k < 256 implies partition_stands(
        pdata,
        28 + 80 * k,
        #[trigger] partitions[k],
    ) by {
        let at = 28 + 80 * k;
        lemma_little(pdata, at);
        lemma_little(pdata, at + 4);
        lemma_little(pdata, at + 8);
        lemma_qvec(pdata, at + 16, partitions[k].bbox_min);
        lemma_qvec(pdata, at + 48, partitions[k].bbox_max);
    }
    assert forall|i: int| 0 <= i < nodes.len() implies node_stands(
        ndata,
        80 * i,
        #[trigger] nodes[i],
    ) by {
        lemma_node(ndata, i, nodes[i]);
    }
}

/// Partitions and nodes are accepted exactly if they fit together and to the records, and
/// they are what stands in the two sections.
pub proof fn law_trees_are_what_stands_in_their_files(
    pdata: &[u8],
    ndata: &[u8],
    count: usize,
    r: Result<(Vec<PartitionMeta>, Vec<KdNode>), IndexError>,
)
    requires
        call_ensures(parse_partition_files, (pdata, ndata, count), r),
    ensures
        r is Ok <==> trees_fit(pdata@, ndata@, count as int),
        r matches Ok((partitions, nodes)) ==> trees_stand(
            pdata@,
            ndata@,
            partitions@,
            nodes@,
        ),
{
    lemma_trees_fit(pdata@, ndata@, count as int);
    match r {
        Ok((partitions, nodes)) => lemma_trees_stand(pdata@, ndata@, partitions@, nodes@),
        Err(_) => {},
    }
}

/// A split index is accepted exactly if there is a vector for every label and its trees, if it
/// has any, fit; it holds the labels, vectors, partitions and nodes that stand in its files.
pub proof fn law_split_index_is_what_stands_in_its_files(
    vectors: &[u8],
    labels: &[u8],
    trees: Option<(&[u8], &[u8])>,
    limits: SearchLimits,
    r: Result<Index, IndexError>,
)
    requires
        call_ensures(Index::load, (vectors, labels, trees, limits), r),
    ensures
        r is Ok <==> {
            &&& vectors@.len() == 32 * labels@.len()
            &&& trees matches Some((p, n)) ==> trees_fit(p@, n@, labels@.len() as int)
        },
        r matches Ok(ix) ==> {
            &&& ix.limits == limits
            &&& ix.count == labels@.len()
            &&& ix.labels@ == labels@
            &&& ix.vectors@.len() == ix.count
            &&& forall|i: int|
                0 <= i < ix.count ==> vector_stands(vectors@, 32 * i, #[trigger] ix.vectors@[i])
            &&& trees matches Some((p, n)) ==> trees_stand(p@, n@, ix.partitions@, ix.nodes@)
            &&& trees is None ==> ix.nodes@.len() == 0
        },
{
    if trees is Some {
        let (p, n) = trees->0;
        lemma_trees_fit(p@, n@, labels@.len() as int);
    }
    match r {
        Ok(ix) => {
            assert forall|i: int| 0 <= i < ix.count implies vector_stands(
                vectors@,
                32 * i,
                #[trigger] ix.vectors@[i],
            ) by {
                lemma_qvec(vectors@, 32 * i, ix.vectors@[i]);
            }
            if trees is Some {
                let (p, n) = trees->0;
                lemma_trees_stand(p@, n@, ix.partitions@, ix.nodes@);
            }
        },
        Err(_) => {},
    }
}

/// Number `i` of the head of an index file: records, nodes, and where the sections start.
pub open spec fn head_word(data: Seq<u8>, i: int) -> int {
    little(data, 24 + 8 * i, 8)
}

/// An index file is whole: its head, its length, its sections and its trees.
pub open spec fn file_fits(data: Seq<u8>) -> bool {
    let n = head_word(data, 0);
    &&& data.len() >= 104
    &&& data.take(8) == file_mark()
    &&& little(data, 8, 4) == 5
    &&& little(data, 12, 4) == 14
    &&& little(data, 16, 4) == 16
    &&& little(data, 20, 4) == 10_000
    &&& head_word(data, 9) == data.len()
    &&& head_word(data, 2) + 20_508 <= data.len()
    &&& head_word(data, 3) + 80 * head_word(data, 1) <= data.len()
    &&& head_word(data, 4) + 8 * n <= data.len()
    &&& head_word(data, 5) + 8 * n <= data.len()
    &&& head_word(data, 6) + 16 * n <= data.len()
    &&& head_word(data, 8) + n <= data.len()
    &&& trees_fit(
        data.subrange(head_word(data, 2), head_word(data, 2) + 20_508),
        data.subrange(head_word(data, 3), head_word(data, 3) + 80 * head_word(data, 1)),
        n,
    )
}

/// The coordinates of record `i` stand in the three stages: the dimensions 0, 1, 2 and 8 in
/// the first, 4, 6, 7 and 13 in the second, all others in the third.
pub open spec fn record_stands(data: Seq<u8>, i: int, q: QVec) -> bool {
    let hot = head_word(data, 4) + 8 * i;
    let mid = head_word(data, 5) + 8 * i;
    let cold = head_word(data, 6) + 16 * i;
    &&& q.at(0) == coordinate(data, hot)
    &&& q.at(1) == coordinate(data, hot + 2)
    &&& q.at(2) == coordinate(data, hot + 4)
    &&& q.at(8) == coordinate(data, hot + 6)
    &&& q.at(4) == coordinate(data, mid)
    &&& q.at(6) == coordinate(data, mid + 2)
    &&& q.at(7) == coordinate(data, mid + 4)
    &&& q.at(13) == coordinate(data, mid + 6)
    &&& q.at(3) == coordinate(data, cold)
    &&& q.at(5) == coordinate(data, cold + 2)
    &&& q.at(9) == coordinate(data, cold + 4)
    &&& q.at(10) == coordinate(data, cold + 6)
    &&& q.at(11) == coordinate(data, cold + 8)
    &&& q.at(12) == coordinate(data, cold + 10)
    &&& q.at(14) == coordinate(data, cold + 12)
    &&& q.at(15) == coordinate(data, cold + 14)
}

pub proof fn lemma_words(data: Seq<u8>)
    ensures
        forall|i: int| 0 <= i < 10 ==> #[trigger] load::word_at(data, i) == head_word(data, i),
{
    assert forall|i: int| 0 <= i < 10 implies #[trigger] load::word_at(data, i) == head_word(
        data,
        i,
    ) by {
        lemma_little(data, 24 + 8 * i);
    }
}

proof fn lemma_file_fits(data: Seq<u8>)
    ensures
        load::index_file_error(data) is None <==> file_fits(data),
{
    assert(crate::index::INDEX_FILE_MAGIC@ =~= file_mark());
    if data.len() >= 8 {
        assert(data.take(8) =~= data.subrange(0, 8));
    }
    lemma_words(data);
    lemma_little(data, 8);
    lemma_little(data, 12);
    lemma_little(data, 16);
    lemma_little(data, 20);
    lemma_trees_fit(load::partition_section(data), load::node_section(data), head_word(data, 0));
}

proof fn lemma_stage(
    data: Seq<u8>,
    off: int,
    dims: Seq<usize>,
    i: int,
    q: QVec,
    j: int,
    width: int,
)
    requires
        load::is_staged_at(data, off, dims, i, q),
        0 <= j < dims.len(),
        width == dims.len() * 2,
    ensures
        q.at(dims[j] as int) == coordinate(data, off + width * i + 2 * j),
{
    assert(i * (dims.len() * 2) == width * i) by (nonlinear_arith)
        requires
            width == dims.len() * 2,
    ;
    assert(q.at(dims[j] as int) == bytes::i16_at(data, off + i * (dims.len() * 2) + 2 * j));
    lemma_little(data, off + i * (dims.len() * 2) + 2 * j);
}

proof fn lemma_record(data: Seq<u8>, i: int, q: QVec)
    requires
        load::is_vector_at(data, i, q),
    ensures
        record_stands(data, i, q),
{
    lemma_words(data);
    let hot = crate::index::HOT_DIMS@;
    let mid = crate::index::MID_DIMS@;
    let cold = crate::index::COLD_SIMD_DIMS@;
    assert(hot =~= seq![0usize, 1, 2, 8]);
    assert(mid =~= seq![4usize, 6, 7, 13]);
    assert(cold =~= seq![3usize, 5, 9, 10, 11, 12, 14, 15]);
    let (a, b, c) = (head_word(data, 4), head_word(data, 5), head_word(data, 6));
    assert(load::word_at(data, 4) == a && load::word_at(data, 5) == b && load::word_at(data, 6)
        == c);
    lemma_stage(data, a, hot, i, q, 0, 8);
    lemma_stage(data, a, hot, i, q, 1, 8);
    lemma_stage(data, a, hot, i, q, 2, 8);
    lemma_stage(data, a, hot, i, q, 3, 8);
    lemma_stage(data, b, mid, i, q, 0, 8);
    lemma_stage(data, b, mid, i, q, 1, 8);
    lemma_stage(data, b, mid, i, q, 2, 8);
    lemma_stage(data, b, mid, i, q, 3, 8);
    lemma_stage(data, c, cold, i, q, 0, 16);
    lemma_stage(data, c, cold, i, q, 1, 16);
    lemma_stage(data, c, cold, i, q, 2, 16);
    lemma_stage(data, c, cold, i, q, 3, 16);
    lemma_stage(data, c, cold, i, q, 4, 16);
    lemma_stage(data, c, cold, i, q, 5, 16);
    lemma_stage(data, c, cold, i, q, 6, 16);
    lemma_stage(data, c, cold, i, q, 7, 16);
}

/// An index file is accepted exactly if it is whole, and the index holds the records, labels,
/// partitions and nodes that stand where its head says.
pub proof fn law_index_is_what_stands_in_its_file(
    data: &[u8],
    limits: SearchLimits,
    r: Result<Index, IndexError>,
)
    requires
        call_ensures(Index::load_file, (data, limits), r),
    ensures
        r is Ok <==> file_fits(data@),
        r matches Ok(ix) ==> {
            let d = data@;
            &&& ix.limits == limits
            &&& ix.count == head_word(d, 0)
            &&& ix.vectors@.len() == ix.count
            &&& forall|i: int|
                0 <= i < ix.count ==> record_stands(d, i, #[trigger] ix.vectors@[i])
            &&& ix.labels@.len() == ix.count
            &&& forall|i: int|
                0 <= i < ix.count ==> #[trigger] ix.labels@[i] == d[head_word(d, 8) + i]
            &&& trees_stand(
                d.subrange(head_word(d, 2), head_word(d, 2) + 20_508),
                d.subrange(head_word(d, 3), head_word(d, 3) + 80 * head_word(d, 1)),
                ix.partitions@,
                ix.nodes@,
            )
        },
{
    let d = data@;
    lemma_file_fits(d);
    lemma_words(d);
    match r {
        Ok(ix) => {
            assert(load::word_at(d, 0) == head_word(d, 0));
            assert(load::word_at(d, 8) == head_word(d, 8));
            assert(load::word_at(d, 1) == head_word(d, 1) && load::word_at(d, 2) == head_word(d, 2)
                && load::word_at(d, 3) == head_word(d, 3));
            assert forall|i: int| 0 <= i < ix.count implies record_stands(
                d,
                i,
                #[trigger] ix.vectors@[i],
            ) by {
                lemma_record(d, i, ix.vectors@[i]);
            }
            lemma_trees_stand(
                load::partition_section(d),
                load::node_section(d),
                ix.partitions@,
                ix.nodes@,
            );
        },
        Err(_) => {},
    }
}

/// `o` is the first multiple of 64 from `e` on.
pub open spec fn next_line(e: int, o: int) -> bool {
    o % 64 == 0 && e <= o < e + 64
}

/// The head of an index file of `n` records and `m` nodes, whose sections stand one behind the
/// other, each at the beginning of a cache line: partitions, nodes, the three stages and the
/// labels, which end the file.
pub open spec fn is_laid_out(f: Seq<u8>, n: int, m: int) -> bool {
    &&& f.take(8) == file_mark()
    &&& little(f, 8, 4) == 5 && little(f, 12, 4) == 14 && little(f, 16, 4) == 16
    &&& little(f, 20, 4) == 10_000
    &&& head_word(f, 0) == n
    &&& head_word(f, 1) == m
    &&& head_word(f, 2) == 128
    &&& next_line(20_636, head_word(f, 3))
    &&& next_line(head_word(f, 3) + 80 * m, head_word(f, 4))
    &&& next_line(head_word(f, 4) + 8 * n, head_word(f, 5))
    &&& next_line(head_word(f, 5) + 8 * n, head_word(f, 6))
    &&& head_word(f, 7) == 0
    &&& next_line(head_word(f, 6) + 16 * n, head_word(f, 8))
    &&& head_word(f, 9) == head_word(f, 8) + n
    &&& f.len() == head_word(f, 9)
}

proof fn lemma_round_up(e: int)
    requires
        0 <= e,
    ensures
        next_line(e, layout::round_up(e)),
        layout::round_up(e) >= 0,
{
}

pub proof fn lemma_laid_out(
    records: Seq<BuildRecord>,
    partitions: Seq<PartitionMeta>,
    node_counts: Seq<u32>,
    nodes: Seq<KdNode>,
)
    requires
        layout::total_len(nodes.len() as int, records.len() as int) <= u64::MAX,
    ensures
        is_laid_out(
            layout::index_file_bytes(records, partitions, node_counts, nodes),
            records.len() as int,
            nodes.len() as int,
        ),
{
    let f = layout::index_file_bytes(records, partitions, node_counts, nodes);
    let n = records.len() as int;
    let m = nodes.len() as int;
    roundtrip::lemma_written_head(records, partitions, node_counts, nodes);
    assert(crate::index::INDEX_FILE_MAGIC@ =~= file_mark());
    assert(f.take(8) =~= f.subrange(0, 8));
    lemma_words(f);
    lemma_little(f, 8);
    lemma_little(f, 12);
    lemma_little(f, 16);
    lemma_little(f, 20);
    lemma_round_up(20_636);
    lemma_round_up(layout::nodes_off() + 80 * m);
    lemma_round_up(layout::hot4_off(m) + 8 * n);
    lemma_round_up(layout::mid4_off(m, n) + 8 * n);
    lemma_round_up(layout::cold8_off(m, n) + 16 * n);
    assert(load::word_at(f, 0) == head_word(f, 0) && load::word_at(f, 1) == head_word(f, 1)
        && load::word_at(f, 2) == head_word(f, 2) && load::word_at(f, 3) == head_word(f, 3)
        && load::word_at(f, 4) == head_word(f, 4) && load::word_at(f, 5) == head_word(f, 5)
        && load::word_at(f, 6) == head_word(f, 6) && load::word_at(f, 7) == head_word(f, 7)
        && load::word_at(f, 8) == head_word(f, 8) && load::word_at(f, 9) == head_word(f, 9));
}

proof fn lemma_node_count_stands(
    records: Seq<BuildRecord>,
    partitions: Seq<PartitionMeta>,
    node_counts: Seq<u32>,
    nodes: Seq<KdNode>,
    k: int,
)
    requires
        layout::total_len(nodes.len() as int, records.len() as int) <= u64::MAX,
        0 <= k < 256,
    ensures
        little(
            layout::index_file_bytes(records, partitions, node_counts, nodes),
            168 + 80 * k,
            4,
        ) == node_counts[k],
{
    let f = layout::index_file_bytes(records, partitions, node_counts, nodes);
    let (n, m) = (records.len() as u64, nodes.len() as u64);
    let p = layout::partitions_bytes(n, m, partitions, node_counts);
    roundtrip::lemma_written_head(records, partitions, node_counts, nodes);
    roundtrip::lemma_written_node_count(n, m, partitions, node_counts, k);
    let at = 28 + 80 * k + 12;
    lemma_little(f, 128 + at);
    assert(f.subrange(128, 20_636) == p);
    assert(p[at] == f[128 + at] && p[at + 1] == f[128 + at + 1] && p[at + 2] == f[128 + at + 2]
        && p[at + 3] == f[128 + at + 3]);
}

/// An index file is written behind what was there: its head says for which dimensions and which
/// scale it was made and where its sections stand, which follow each other line by line, and
/// each partition says how many nodes it has.
pub proof fn law_sections_of_a_file_follow_each_other(
    w: &mut Vec<u8>,
    records: &[BuildRecord],
    partitions: &[PartitionMeta],
    node_counts: &[u32],
    nodes: &[KdNode],
)
    requires
        call_ensures(write_index_file, (w, records, partitions, node_counts, nodes), ()),
        layout::total_len(nodes@.len() as int, records@.len() as int) <= u64::MAX,
    ensures
        final(w)@.len() >= old(w)@.len() && final(w)@.take(old(w)@.len() as int) == old(w)@,
        ({
            let f = final(w)@.skip(old(w)@.len() as int);
            &&& is_laid_out(f, records@.len() as int, nodes@.len() as int)
            &&& forall|k: int|
                0 <= k < 256 ==> little(f, 168 + 80 * k, 4) == #[trigger] node_counts@[k]
        }),
{
    let b = old(w)@;
    let f = layout::index_file_bytes(records@, partitions@, node_counts@, nodes@);
    assert(final(w)@ =~= b + f);
    assert(final(w)@.take(b.len() as int) =~= b);
    assert(final(w)@.skip(b.len() as int) =~= f);
    lemma_laid_out(records@, partitions@, node_counts@, nodes@);
    assert forall|k: int| 0 <= k < 256 implies little(f, 168 + 80 * k, 4)
        == #[trigger] node_counts@[k] by {
        lemma_node_count_stands(records@, partitions@, node_counts@, nodes@, k);
    }
}

} // verus!
