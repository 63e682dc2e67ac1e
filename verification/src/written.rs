//! What is written is read back, and takes the room that it is said to take.
use crate::bytes;
use crate::bytes::{
    read_i16, read_i32, read_qvec, read_u32, read_u64, write_bytes, write_i16, write_i32,
    write_qvec, write_qvec_raw, write_u32, write_u64,
};
use crate::formats;
use crate::index;
use crate::index::{KdNode, PartitionMeta, QVec};
use crate::kd::BuildRecord;
use crate::layout;
use crate::layout::{
    index_file_len, node_bytes_len, partition_bytes_len, write_index_file, write_labels_section,
    write_node, write_nodes, write_padding_to, write_partitions, write_stage_section,
    write_vectors_section,
};
use crate::load;
use crate::load::IndexError;
use crate::roundtrip;
use crate::search::{Index, SearchLimits};
use vstd::prelude::*;

verus! {

/// `w` is `before` and `n` bytes behind it.
pub open spec fn grown_by(before: Seq<u8>, w: Seq<u8>, n: int) -> bool {
    &&& w.len() == before.len() + n
    &&& w.take(before.len() as int) == before
}

/// Numbers are read back where they were written, and the position moves behind them.
pub proof fn law_numbers_read_back(
    w: &mut Vec<u8>,
    v: u32,
    x: &mut Vec<u8>,
    l: u64,
    y: &mut Vec<u8>,
    i: i32,
    z: &mut Vec<u8>,
    s: i16,
    data: &[u8],
    p1: &mut usize,
    p2: &mut usize,
    p3: &mut usize,
    p4: usize,
    rv: u32,
    rl: u64,
    ri: i32,
    rs: i16,
)
    requires
        call_ensures(write_u32, (w, v), ()),
        call_ensures(write_u64, (x, l), ()),
        call_ensures(write_i32, (y, i), ()),
        call_ensures(write_i16, (z, s), ()),
        call_ensures(read_u32, (data, p1), rv),
        call_ensures(read_u64, (data, p2), rl),
        call_ensures(read_i32, (data, p3), ri),
        call_ensures(read_i16, (data, p4), rs),
    ensures
        data@ == final(w)@ && *old(p1) == old(w)@.len() ==> rv == v && *final(p1) == data@.len(),
        data@ == final(x)@ && *old(p2) == old(x)@.len() ==> rl == l && *final(p2) == data@.len(),
        data@ == final(y)@ && *old(p3) == old(y)@.len() ==> ri == i && *final(p3) == data@.len(),
        data@ == final(z)@ && p4 == old(z)@.len() ==> rs == s,
{
    if data@ == final(w)@ && *old(p1) == old(w)@.len() {
        let at = old(w)@.len() as int;
        assert(data@.subrange(at, at + 4) =~= bytes::u32_bytes(v));
        bytes::law_u32_reads_back(data@, at, v);
    }
    if data@ == final(x)@ && *old(p2) == old(x)@.len() {
        let at = old(x)@.len() as int;
        assert(data@.subrange(at, at + 8) =~= bytes::u64_bytes(l));
        bytes::law_u64_reads_back(data@, at, l);
    }
    if data@ == final(y)@ && *old(p3) == old(y)@.len() {
        let at = old(y)@.len() as int;
        assert(data@.subrange(at, at + 4) =~= bytes::i32_bytes(i));
        bytes::law_i32_reads_back(data@, at, i);
    }
    if data@ == final(z)@ && p4 == old(z)@.len() {
        let at = old(z)@.len() as int;
        assert(data@.subrange(at, at + 2) =~= bytes::i16_bytes(s));
        bytes::law_i16_reads_back(data@, at, s);
    }
}

/// A vector is written coordinate by coordinate, and read back so.
pub proof fn law_vector_reads_back(
    w: &mut Vec<u8>,
    q: QVec,
    x: &mut Vec<u8>,
    data: &[u8],
    pos: &mut usize,
    r: QVec,
)
    requires
        call_ensures(write_qvec, (w, &q), ()),
        call_ensures(write_qvec_raw, (x, &q.0), ()),
        call_ensures(read_qvec, (data, pos), r),
    ensures
        grown_by(old(w)@, final(w)@, 32),
        formats::vector_stands(final(w)@, old(w)@.len() as int, q),
        final(x)@.skip(old(x)@.len() as int) == final(w)@.skip(old(w)@.len() as int),
        data@ == final(w)@ && *old(pos) == old(w)@.len() ==> {
            &&& *final(pos) == data@.len()
            &&& forall|d: int| 0 <= d < 16 ==> #[trigger] r.at(d) == q.at(d)
        },
{
    let b = old(w)@;
    let at = b.len() as int;
    bytes::lemma_qvec_bytes_len(q);
    assert(final(w)@.take(at) =~= b);
    assert(final(w)@.subrange(at, at + 32) =~= bytes::qvec_bytes(q));
    bytes::law_qvec_reads_back(final(w)@, at, q);
    formats::lemma_qvec(final(w)@, at, q);
    assert(QVec(q.0) == q);
    assert(final(x)@.skip(old(x)@.len() as int) =~= bytes::qvec_bytes(q));
    assert(final(w)@.skip(at) =~= bytes::qvec_bytes(q));
    if data@ == final(w)@ && *old(pos) == at {
        formats::lemma_qvec(data@, at, r);
        assert forall|d: int| 0 <= d < 16 implies #[trigger] r.at(d) == q.at(d) by {
            assert(q.at(d) == formats::coordinate(data@, at + 2 * d));
        }
    }
}

/// Bytes are written as they are.
pub proof fn law_bytes_are_written_as_they_are(w: &mut Vec<u8>, data: &[u8])
    requires
        call_ensures(write_bytes, (w, data), ()),
    ensures
        grown_by(old(w)@, final(w)@, data@.len() as int),
        final(w)@.skip(old(w)@.len() as int) == data@,
{
    assert(final(w)@.take(old(w)@.len() as int) =~= old(w)@);
    assert(final(w)@.skip(old(w)@.len() as int) =~= data@);
}

/// Padding fills what is missing with zeroes, and nothing where nothing is missing.
pub proof fn law_padding_fills_with_zeroes(w: &mut Vec<u8>, written: &mut usize, target: usize)
    requires
        call_ensures(write_padding_to, (w, written, target), ()),
    ensures
        *old(written) < target ==> {
            &&& *final(written) == target
            &&& grown_by(old(w)@, final(w)@, target - *old(written))
            &&& forall|i: int| old(w)@.len() <= i < final(w)@.len() ==> #[trigger] final(w)@[i] == 0
        },
        *old(written) >= target ==> final(w)@ == old(w)@ && *final(written) == *old(written),
{
    assert(final(w)@.take(old(w)@.len() as int) =~= old(w)@);
}

proof fn lemma_node_stands(node: KdNode)
    ensures
        layout::node_bytes(node).len() == 80,
        formats::node_stands(layout::node_bytes(node), 0, node),
{
    let f = layout::node_bytes(node);
    layout::lemma_node_len(node);
    assert(f.subrange(0, 80) =~= f);
    roundtrip::lemma_node_reads_back(f, 0, node);
    formats::lemma_node(f, 0, node);
}

/// A node takes the room that it is said to take.
pub proof fn law_node_takes_its_room(w: &mut Vec<u8>, node: KdNode, n: usize)
    requires
        call_ensures(write_node, (w, &node), ()),
        call_ensures(node_bytes_len, (), n),
    ensures
        n == 80,
        grown_by(old(w)@, final(w)@, 80),
        formats::node_stands(final(w)@.skip(old(w)@.len() as int), 0, node),
{
    lemma_node_stands(node);
    assert(final(w)@.take(old(w)@.len() as int) =~= old(w)@);
    assert(final(w)@.skip(old(w)@.len() as int) =~= layout::node_bytes(node));
}

/// The partitions take the room that they are said to take.
pub proof fn law_partitions_take_their_room(
    w: &mut Vec<u8>,
    count: u64,
    nodes_count: u64,
    partitions: &[PartitionMeta],
    node_counts: &[u32],
    n: usize,
)
    requires
        call_ensures(write_partitions, (w, count, nodes_count, partitions, node_counts), ()),
        call_ensures(partition_bytes_len, (), n),
    ensures
        n == 28 + 256 * 80,
        grown_by(old(w)@, final(w)@, n as int),
{
    layout::lemma_partitions_len(count, nodes_count, partitions@, node_counts@);
    assert(final(w)@.take(old(w)@.len() as int) =~= old(w)@);
}

/// The partitions are written behind a mark, the version and both counts, one behind the other.
pub proof fn law_partitions_are_written_in_order(
    w: &mut Vec<u8>,
    count: u64,
    nodes_count: u64,
    partitions: &[PartitionMeta],
    node_counts: &[u32],
    k: int,
)
    requires
        call_ensures(write_partitions, (w, count, nodes_count, partitions, node_counts), ()),
        0 <= k < 256,
    ensures
        ({
            let f = final(w)@.skip(old(w)@.len() as int);
            &&& f.take(8) == formats::partitions_mark()
            &&& formats::little(f, 8, 4) == 5
            &&& formats::little(f, 12, 8) == count
            &&& formats::little(f, 20, 8) == nodes_count
            &&& formats::partition_stands(f, 28 + 80 * k, partitions@[k])
            &&& formats::little(f, 28 + 80 * k + 12, 4) == node_counts@[k]
        }),
{
    let f = final(w)@.skip(old(w)@.len() as int);
    let at = 28 + 80 * k;
    assert(f =~= layout::partitions_bytes(count, nodes_count, partitions@, node_counts@));
    roundtrip::lemma_written_partition(count, nodes_count, partitions@, node_counts@, k);
    roundtrip::lemma_written_node_count(count, nodes_count, partitions@, node_counts@, k);
    assert(f.take(8) =~= f.subrange(0, 8));
    assert(index::PARTITIONS_MAGIC@ =~= formats::partitions_mark());
    formats::lemma_little(f, 8);
    formats::lemma_little(f, 12);
    formats::lemma_little(f, 20);
    formats::lemma_little(f, at);
    formats::lemma_little(f, at + 4);
    formats::lemma_little(f, at + 8);
    formats::lemma_little(f, at + 12);
    formats::lemma_qvec(f, at + 16, partitions@[k].bbox_min);
    formats::lemma_qvec(f, at + 48, partitions@[k].bbox_max);
}

/// Nodes and vectors are written one behind the other.
pub proof fn law_nodes_and_vectors_are_written_in_order(
    w: &mut Vec<u8>,
    nodes: &[KdNode],
    i: int,
    x: &mut Vec<u8>,
    records: &[BuildRecord],
    j: int,
)
    requires
        call_ensures(write_nodes, (w, nodes), ()),
        call_ensures(write_vectors_section, (x, records), ()),
        0 <= i < nodes@.len(),
        0 <= j < records@.len(),
    ensures
        grown_by(old(w)@, final(w)@, 80 * nodes@.len() as int),
        formats::node_stands(final(w)@.skip(old(w)@.len() as int), 80 * i, nodes@[i]),
        grown_by(old(x)@, final(x)@, 32 * records@.len() as int),
        formats::vector_stands(final(x)@.skip(old(x)@.len() as int), 32 * j, records@[j].qvec),
{
    let f = final(w)@.skip(old(w)@.len() as int);
    let g = final(x)@.skip(old(x)@.len() as int);
    assert(f =~= layout::nodes_bytes(nodes@));
    assert(g =~= layout::vectors_bytes(records@));
    assert(final(w)@.take(old(w)@.len() as int) =~= old(w)@);
    assert(final(x)@.take(old(x)@.len() as int) =~= old(x)@);
    layout::lemma_nodes_len(nodes@);
    roundtrip::lemma_written_node(nodes@, i);
    formats::lemma_node(f, i, nodes@[i]);
    roundtrip::lemma_written_vector(records@, j);
    formats::lemma_qvec(g, 32 * j, records@[j].qvec);
}

/// The sections of an index file are those that are written on their own, and stand where the
/// head of the file says.
pub proof fn law_file_has_the_sections_that_are_written_alone(
    w: &mut Vec<u8>,
    records: &[BuildRecord],
    partitions: &[PartitionMeta],
    node_counts: &[u32],
    nodes: &[KdNode],
    p: &mut Vec<u8>,
    n: &mut Vec<u8>,
    l: &mut Vec<u8>,
    s: &mut Vec<u8>,
    dims: &[usize],
)
    requires
        call_ensures(write_index_file, (w, records, partitions, node_counts, nodes), ()),
        call_ensures(
            write_partitions,
            (p, records@.len() as u64, nodes@.len() as u64, partitions, node_counts),
            (),
        ),
        call_ensures(write_nodes, (n, nodes), ()),
        call_ensures(write_labels_section, (l, records), ()),
        call_ensures(write_stage_section, (s, records, dims), ()),
        old(w)@.len() == 0 && old(p)@.len() == 0 && old(n)@.len() == 0 && old(l)@.len() == 0,
        old(s)@.len() == 0,
        layout::total_len(nodes@.len() as int, records@.len() as int) <= u64::MAX,
    ensures
        ({
            let f = final(w)@;
            let at = |i: int| formats::head_word(f, i);
            let (c, m) = (records@.len() as int, nodes@.len() as int);
            &&& f.subrange(at(2), at(2) + 20_508) == final(p)@
            &&& f.subrange(at(3), at(3) + m * 80) == final(n)@
            &&& dims@ == seq![0usize, 1, 2, 8] ==> f.subrange(at(4), at(4) + c * 8) == final(s)@
            &&& dims@ == seq![4usize, 6, 7, 13] ==> f.subrange(at(5), at(5) + c * 8) == final(s)@
            &&& dims@ == seq![3usize, 5, 9, 10, 11, 12, 14, 15] ==> f.subrange(
                at(6),
                at(6) + c * 16,
            ) == final(s)@
            &&& f.subrange(at(8), at(8) + c) == final(l)@
        }),
{
    let f = layout::index_file_bytes(records@, partitions@, node_counts@, nodes@);
    assert(final(w)@ =~= f);
    assert(final(p)@ =~= layout::partitions_bytes(
        records@.len() as u64,
        nodes@.len() as u64,
        partitions@,
        node_counts@,
    ));
    assert(final(n)@ =~= layout::nodes_bytes(nodes@));
    assert(final(l)@ =~= layout::labels_bytes(records@));
    assert(final(s)@ =~= layout::stage_bytes(records@, dims@));
    lemma_where_sections_stand(records@, partitions@, node_counts@, nodes@);
    assert(index::HOT_DIMS@ =~= seq![0usize, 1, 2, 8]);
    assert(index::MID_DIMS@ =~= seq![4usize, 6, 7, 13]);
    assert(index::COLD_SIMD_DIMS@ =~= seq![3usize, 5, 9, 10, 11, 12, 14, 15]);
}

proof fn lemma_where_sections_stand(
    records: Seq<BuildRecord>,
    partitions: Seq<PartitionMeta>,
    node_counts: Seq<u32>,
    nodes: Seq<KdNode>,
)
    requires
        layout::total_len(nodes.len() as int, records.len() as int) <= u64::MAX,
    ensures
        ({
            let f = layout::index_file_bytes(records, partitions, node_counts, nodes);
            let (c, m) = (records.len() as int, nodes.len() as int);
            let (o2, o3) = (formats::head_word(f, 2), formats::head_word(f, 3));
            let (o4, o5) = (formats::head_word(f, 4), formats::head_word(f, 5));
            let (o6, o8) = (formats::head_word(f, 6), formats::head_word(f, 8));
            &&& f.subrange(o2, o2 + 20_508) == layout::partitions_bytes(
                c as u64,
                m as u64,
                partitions,
                node_counts,
            )
            &&& f.subrange(o3, o3 + m * 80) == layout::nodes_bytes(nodes)
            &&& f.subrange(o4, o4 + c * 8) == layout::stage_bytes(records, index::HOT_DIMS@)
            &&& f.subrange(o5, o5 + c * 8) == layout::stage_bytes(records, index::MID_DIMS@)
            &&& f.subrange(o6, o6 + c * 16) == layout::stage_bytes(
                records,
                index::COLD_SIMD_DIMS@,
            )
            &&& f.subrange(o8, o8 + c) == layout::labels_bytes(records)
        }),
{
    let f = layout::index_file_bytes(records, partitions, node_counts, nodes);
    roundtrip::lemma_written_sections(records, partitions, node_counts, nodes);
    roundtrip::lemma_written_head(records, partitions, node_counts, nodes);
    formats::lemma_words(f);
    assert(load::word_at(f, 2) == formats::head_word(f, 2) && load::word_at(f, 3)
        == formats::head_word(f, 3) && load::word_at(f, 4) == formats::head_word(f, 4)
        && load::word_at(f, 5) == formats::head_word(f, 5) && load::word_at(f, 6)
        == formats::head_word(f, 6) && load::word_at(f, 8) == formats::head_word(f, 8));
}

/// The coordinates of a stage are written record by record in the order of the dimensions.
pub proof fn law_stage_holds_its_dimensions(
    w: &mut Vec<u8>,
    records: &[BuildRecord],
    dims: &[usize],
    i: int,
    j: int,
)
    requires
        call_ensures(write_stage_section, (w, records, dims), ()),
        0 <= i < records@.len(),
        0 <= j < dims@.len(),
        forall|j: int| 0 <= j < dims@.len() ==> (#[trigger] dims@[j]) < 16,
    ensures
        grown_by(old(w)@, final(w)@, (records@.len() * (2 * dims@.len())) as int),
        formats::coordinate(
            final(w)@.skip(old(w)@.len() as int),
            i * (2 * dims@.len()) + 2 * j,
        ) == records@[i].qvec.at(dims@[j] as int),
{
    let s = layout::stage_bytes(records@, dims@);
    let f = final(w)@.skip(old(w)@.len() as int);
    assert(final(w)@.take(old(w)@.len() as int) =~= old(w)@);
    assert(f =~= s);
    layout::lemma_stage_len(records@, dims@);
    roundtrip::lemma_stage_coordinate(records@, dims@, i, j);
    formats::lemma_little(s, i * (2 * dims@.len()) + 2 * j);
}

/// The labels are written one byte each, in their order.
pub proof fn law_labels_are_written_in_order(w: &mut Vec<u8>, records: &[BuildRecord])
    requires
        call_ensures(write_labels_section, (w, records), ()),
    ensures
        grown_by(old(w)@, final(w)@, records@.len() as int),
        forall|i: int|
            0 <= i < records@.len() ==> final(w)@[old(w)@.len() + i] == (
            #[trigger] records@[i]).label,
{
    assert(final(w)@.take(old(w)@.len() as int) =~= old(w)@);
}

/// What the length of an index file is said to be is what it takes, and none is said only where
/// there would be no room for it.
pub proof fn law_file_takes_its_length(
    w: &mut Vec<u8>,
    records: &[BuildRecord],
    partitions: &[PartitionMeta],
    node_counts: &[u32],
    nodes: &[KdNode],
    r: Option<usize>,
)
    requires
        call_ensures(write_index_file, (w, records, partitions, node_counts, nodes), ()),
        call_ensures(index_file_len, (nodes@.len() as usize, records@.len() as usize), r),
        nodes@.len() <= usize::MAX,
        records@.len() <= usize::MAX,
    ensures
        r matches Some(n) ==> final(w)@.len() - old(w)@.len() == n && n + 64 <= usize::MAX,
        r is None ==> final(w)@.len() - old(w)@.len() + 64 > usize::MAX,
{
    roundtrip::lemma_written_len(records@, partitions@, node_counts@, nodes@);
}

/// The index file that is written for records, partitions and trees is accepted, and what is
/// loaded from it are these records, partitions and trees.
pub proof fn law_written_index_is_loaded(
    w: &mut Vec<u8>,
    records: &[BuildRecord],
    partitions: &[PartitionMeta],
    node_counts: &[u32],
    nodes: &[KdNode],
    data: &[u8],
    limits: SearchLimits,
    r: Result<Index, IndexError>,
)
    requires
        call_ensures(write_index_file, (w, records, partitions, node_counts, nodes), ()),
        call_ensures(Index::load_file, (data, limits), r),
        old(w)@.len() == 0,
        data@ == final(w)@,
        partitions@.len() == 256,
        layout::total_len(nodes@.len() as int, records@.len() as int) <= u64::MAX,
        roundtrip::total_count(partitions@, 256) == records@.len(),
        forall|k: int| 0 <= k < 256 ==> (#[trigger] partitions@[k])._pad == 0,
    ensures
        r is Ok,
        r matches Ok(ix) ==> {
            &&& ix.limits == limits
            &&& ix.count == records@.len()
            &&& ix.vectors@ == records@.map_values(|r: BuildRecord| r.qvec)
            &&& ix.labels@ == records@.map_values(|r: BuildRecord| r.label)
            &&& ix.partitions@ == partitions@
            &&& ix.nodes@ == nodes@
        },
{
    let f = layout::index_file_bytes(records@, partitions@, node_counts@, nodes@);
    assert(final(w)@ =~= f);
    let any: Index = vstd::pervasive::arbitrary();
    roundtrip::law_index_file_reads_back(records@, partitions@, node_counts@, nodes@, any);
    match r {
        Ok(ix) => {
            roundtrip::law_index_file_reads_back(records@, partitions@, node_counts@, nodes@, ix);
        },
        Err(_) => {},
    }
}

/// The files of a split index that are written for records, partitions and trees are accepted,
/// and what is loaded from them are these records, partitions and trees.
pub proof fn law_written_split_index_is_loaded(
    v: &mut Vec<u8>,
    l: &mut Vec<u8>,
    p: &mut Vec<u8>,
    n: &mut Vec<u8>,
    records: &[BuildRecord],
    partitions: &[PartitionMeta],
    node_counts: &[u32],
    nodes: &[KdNode],
    vectors: &[u8],
    labels: &[u8],
    pdata: &[u8],
    ndata: &[u8],
    limits: SearchLimits,
    r: Result<Index, IndexError>,
)
    requires
        call_ensures(write_vectors_section, (v, records), ()),
        call_ensures(write_labels_section, (l, records), ()),
        call_ensures(
            write_partitions,
            (p, records@.len() as u64, nodes@.len() as u64, partitions, node_counts),
            (),
        ),
        call_ensures(write_nodes, (n, nodes), ()),
        call_ensures(Index::load, (vectors, labels, Some((pdata, ndata)), limits), r),
        old(v)@.len() == 0 && old(l)@.len() == 0 && old(p)@.len() == 0 && old(n)@.len() == 0,
        vectors@ == final(v)@,
        labels@ == final(l)@,
        pdata@ == final(p)@,
        ndata@ == final(n)@,
        partitions@.len() == 256,
        records@.len() <= u64::MAX,
        nodes@.len() <= u64::MAX,
        roundtrip::total_count(partitions@, 256) == records@.len(),
        forall|k: int| 0 <= k < 256 ==> (#[trigger] partitions@[k])._pad == 0,
    ensures
        r is Ok,
        r matches Ok(ix) ==> {
            &&& ix.limits == limits
            &&& ix.count == records@.len()
            &&& ix.vectors@ == records@.map_values(|r: BuildRecord| r.qvec)
            &&& ix.labels@ == records@.map_values(|r: BuildRecord| r.label)
            &&& ix.partitions@ == partitions@
            &&& ix.nodes@ == nodes@
        },
{
    assert(final(v)@ =~= layout::vectors_bytes(records@));
    assert(final(l)@ =~= layout::labels_bytes(records@));
    assert(final(p)@ =~= layout::partitions_bytes(
        records@.len() as u64,
        nodes@.len() as u64,
        partitions@,
        node_counts@,
    ));
    assert(final(n)@ =~= layout::nodes_bytes(nodes@));
    let any: Index = vstd::pervasive::arbitrary();
    roundtrip::law_split_index_reads_back(records@, partitions@, node_counts@, nodes@, any);
    match r {
        Ok(ix) => {
            roundtrip::law_split_index_reads_back(records@, partitions@, node_counts@, nodes@, ix);
        },
        Err(_) => {},
    }
}

} // verus!
