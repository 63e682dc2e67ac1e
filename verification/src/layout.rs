//! Writing an index to bytes.
//!
//! An index file holds a header, the partitions, the nodes of all trees, the coordinates of
//! all records in three stages and their labels, each section on a cache line of its own.
use crate::bytes;
use crate::bytes::{write_bytes, write_i16, write_i32, write_qvec, write_u32, write_u64};
use crate::index;
use crate::index::{
    align_up, KdNode, PartitionMeta, QVec, CACHELINE, COLD_SIMD_DIMS, DIM, FIXED_SCALE, HOT_DIMS,
    INDEX_FILE_HEADER_LEN, INDEX_FILE_MAGIC, INDEX_VERSION, MID_DIMS, PARTITIONS, PARTITIONS_MAGIC,
    RAW_INDEX_FILE_HEADER_LEN, STORE_DIM,
};
use crate::kd::BuildRecord;
use vstd::prelude::*;

verus! {

/// The bytes before the entries of a partition section.
pub open spec fn partitions_head(count: u64, nodes_count: u64) -> Seq<u8> {
    PARTITIONS_MAGIC@ + bytes::u32_bytes(INDEX_VERSION) + bytes::u64_bytes(count)
        + bytes::u64_bytes(nodes_count)
}

/// The entry of one partition.
pub open spec fn partition_entry(p: PartitionMeta, node_count: u32) -> Seq<u8> {
    bytes::u32_bytes(p.start) + bytes::u32_bytes(p.count) + bytes::i32_bytes(p.root)
        + bytes::u32_bytes(node_count) + bytes::qvec_bytes(p.bbox_min) + bytes::qvec_bytes(
        p.bbox_max,
    )
}

pub open spec fn partition_entries(partitions: Seq<PartitionMeta>, node_counts: Seq<u32>) -> Seq<
    u8,
> {
    bytes::flat(256, |k: int| partition_entry(partitions[k], node_counts[k]))
}

/// The partition section.
pub open spec fn partitions_bytes(
    count: u64,
    nodes_count: u64,
    partitions: Seq<PartitionMeta>,
    node_counts: Seq<u32>,
) -> Seq<u8> {
    partitions_head(count, nodes_count) + partition_entries(partitions, node_counts)
}

pub open spec fn node_bytes(node: KdNode) -> Seq<u8> {
    bytes::qvec_bytes(node.bbox_min) + bytes::qvec_bytes(node.bbox_max) + bytes::i32_bytes(
        node.left,
    ) + bytes::i32_bytes(node.right) + bytes::u32_bytes(node.start) + bytes::u32_bytes(node.count)
}

/// The node section.
pub open spec fn nodes_bytes(nodes: Seq<KdNode>) -> Seq<u8> {
    bytes::flat(nodes.len(), |i: int| node_bytes(nodes[i]))
}

/// The coordinates of `q` in the given dimensions.
pub open spec fn stage_entry(q: QVec, dims: Seq<usize>) -> Seq<u8> {
    bytes::flat(dims.len(), |j: int| bytes::i16_bytes(q.0@[dims[j] as int]))
}

/// The section of one stage: the coordinates of all records in its dimensions.
pub open spec fn stage_bytes(records: Seq<BuildRecord>, dims: Seq<usize>) -> Seq<u8> {
    bytes::flat(records.len(), |i: int| stage_entry(records[i].qvec, dims))
}

/// The label section.
pub open spec fn labels_bytes(records: Seq<BuildRecord>) -> Seq<u8> {
    Seq::new(records.len(), |i: int| records[i].label)
}

/// The vector section of a split index.
pub open spec fn vectors_bytes(records: Seq<BuildRecord>) -> Seq<u8> {
    bytes::flat(records.len(), |i: int| bytes::qvec_bytes(records[i].qvec))
}

/// The least multiple of the cache line that is not below `v`.
pub open spec fn round_up(v: int) -> int {
    (v + 63) / 64 * 64
}

/// Bytes of the partition section.
pub const PARTITION_BYTES: usize = 20_508;

/// Bytes of a node.
pub const NODE_BYTES: usize = 80;

pub fn partition_bytes_len() -> (r: usize)
    ensures
        r == PARTITION_BYTES,
{
    8 + 4 + 8 + 8 + PARTITIONS * (4 + 4 + 4 + 4 + STORE_DIM * 2 + STORE_DIM * 2)
}

pub fn node_bytes_len() -> (r: usize)
    ensures
        r == NODE_BYTES,
{
    STORE_DIM * 2 + STORE_DIM * 2 + 4 + 4 + 4 + 4
}

/// Where the sections of an index file stand, given the numbers of records and nodes.
pub open spec fn nodes_off() -> int {
    round_up(INDEX_FILE_HEADER_LEN + PARTITION_BYTES)
}

pub open spec fn hot4_off(nodes: int) -> int {
    round_up(nodes_off() + nodes * NODE_BYTES)
}

pub open spec fn mid4_off(nodes: int, records: int) -> int {
    round_up(hot4_off(nodes) + records * 8)
}

pub open spec fn cold8_off(nodes: int, records: int) -> int {
    round_up(mid4_off(nodes, records) + records * 8)
}

pub open spec fn labels_off(nodes: int, records: int) -> int {
    round_up(cold8_off(nodes, records) + records * 16)
}

pub open spec fn total_len(nodes: int, records: int) -> int {
    labels_off(nodes, records) + records
}

/// The numbers in the header of an index file: records, nodes, the offsets of partitions,
/// nodes, the three stages, whole vectors (none are stored) and labels, and the length.
pub open spec fn header_words(nodes: int, records: int) -> Seq<u64> {
    seq![
        records as u64,
        nodes as u64,
        INDEX_FILE_HEADER_LEN as u64,
        nodes_off() as u64,
        hot4_off(nodes) as u64,
        mid4_off(nodes, records) as u64,
        cold8_off(nodes, records) as u64,
        0,
        labels_off(nodes, records) as u64,
        total_len(nodes, records) as u64,
    ]
}

/// What an index file starts with.
pub open spec fn header_start() -> Seq<u8> {
    INDEX_FILE_MAGIC@ + bytes::u32_bytes(INDEX_VERSION) + bytes::u32_bytes(DIM as u32)
        + bytes::u32_bytes(STORE_DIM as u32) + bytes::u32_bytes(FIXED_SCALE as u32)
}

/// The header of an index file, before padding.
#[verifier::opaque]
pub open spec fn header_bytes(nodes: int, records: int) -> Seq<u8> {
    header_start() + bytes::flat(
        10,
        |i: int| bytes::u64_bytes(header_words(nodes, records)[i]),
    )
}

/// `s`, padded with zeroes to length `len`, then `section`.
pub open spec fn placed(s: Seq<u8>, len: int, section: Seq<u8>) -> Seq<u8> {
    s + bytes::zeroes(len - s.len()) + section
}

/// The beginning of an index file: header, partitions and nodes.
#[verifier::opaque]
pub open spec fn head_sections(
    records: int,
    partitions: Seq<PartitionMeta>,
    node_counts: Seq<u32>,
    nodes: Seq<KdNode>,
) -> Seq<u8> {
    let m = nodes.len() as int;
    let b = placed(
        header_bytes(m, records),
        INDEX_FILE_HEADER_LEN as int,
        partitions_bytes(records as u64, m as u64, partitions, node_counts),
    );
    placed(b, nodes_off(), nodes_bytes(nodes))
}

/// An index file: every section at its offset, zeroes between them.
#[verifier::opaque]
pub open spec fn index_file_bytes(
    records: Seq<BuildRecord>,
    partitions: Seq<PartitionMeta>,
    node_counts: Seq<u32>,
    nodes: Seq<KdNode>,
) -> Seq<u8> {
    let m = nodes.len() as int;
    let n = records.len() as int;
    let c = head_sections(n, partitions, node_counts, nodes);
    let d = placed(c, hot4_off(m), stage_bytes(records, HOT_DIMS@));
    let e = placed(d, mid4_off(m, n), stage_bytes(records, MID_DIMS@));
    let f = placed(e, cold8_off(m, n), stage_bytes(records, COLD_SIMD_DIMS@));
    placed(f, labels_off(m, n), labels_bytes(records))
}

pub proof fn lemma_partition_entry_len(p: PartitionMeta, node_count: u32)
    ensures
        partition_entry(p, node_count).len() == 80,
{
    bytes::lemma_qvec_bytes_len(p.bbox_min);
    bytes::lemma_qvec_bytes_len(p.bbox_max);
}

pub proof fn lemma_partitions_len(
    count: u64,
    nodes_count: u64,
    partitions: Seq<PartitionMeta>,
    node_counts: Seq<u32>,
)
    ensures
        partitions_head(count, nodes_count).len() == 28,
        partitions_bytes(count, nodes_count, partitions, node_counts).len() == PARTITION_BYTES,
{
    let f = |k: int| partition_entry(partitions[k], node_counts[k]);
    assert forall|k: int| 0 <= k < 256 implies (#[trigger] f(k)).len() == 80 by {
        lemma_partition_entry_len(partitions[k], node_counts[k]);
    }
    bytes::lemma_flat(256, f, 80);
}

pub proof fn lemma_node_len(node: KdNode)
    ensures
        node_bytes(node).len() == 80,
{
    bytes::lemma_qvec_bytes_len(node.bbox_min);
    bytes::lemma_qvec_bytes_len(node.bbox_max);
}

pub proof fn lemma_nodes_len(nodes: Seq<KdNode>)
    ensures
        nodes_bytes(nodes).len() == nodes.len() * 80,
{
    let f = |i: int| node_bytes(nodes[i]);
    assert forall|i: int| 0 <= i < nodes.len() implies (#[trigger] f(i)).len() == 80 by {
        lemma_node_len(nodes[i]);
    }
    bytes::lemma_flat(nodes.len(), f, 80);
}

pub proof fn lemma_stage_entry_len(q: QVec, dims: Seq<usize>)
    ensures
        stage_entry(q, dims).len() == dims.len() * 2,
{
    bytes::lemma_flat(dims.len(), |j: int| bytes::i16_bytes(q.0@[dims[j] as int]), 2);
}

pub proof fn lemma_stage_len(records: Seq<BuildRecord>, dims: Seq<usize>)
    ensures
        stage_bytes(records, dims).len() == records.len() * (dims.len() * 2),
{
    let f = |i: int| stage_entry(records[i].qvec, dims);
    assert forall|i: int| 0 <= i < records.len() implies (#[trigger] f(i)).len() == dims.len()
        * 2 by {
        lemma_stage_entry_len(records[i].qvec, dims);
    }
    bytes::lemma_flat(records.len(), f, dims.len() * 2);
}

pub fn write_partitions(
    w: &mut Vec<u8>,
    count: u64,
    nodes_count: u64,
    partitions: &[PartitionMeta],
    partition_node_counts: &[u32],
)
    requires
        partitions@.len() == 256,
        partition_node_counts@.len() == 256,
    ensures
        final(w)@ == old(w)@ + partitions_bytes(
            count,
            nodes_count,
            partitions@,
            partition_node_counts@,
        ),
{
    let ghost before = w@;
    write_bytes(w, PARTITIONS_MAGIC.as_slice());
    write_u32(w, INDEX_VERSION);
    write_u64(w, count);
    write_u64(w, nodes_count);
    let ghost head = partitions_head(count, nodes_count);
    let ghost f = |k: int| partition_entry(partitions@[k], partition_node_counts@[k]);
    assert(w@ =~= before + head + bytes::flat(0, f));
    let mut i: usize = 0;
    while i < PARTITIONS
        invariant
            i <= 256,
            partitions@.len() == 256,
            partition_node_counts@.len() == 256,
            f == (|k: int| partition_entry(partitions@[k], partition_node_counts@[k])),
            w@ == before + head + bytes::flat(i as nat, f),
        decreases 256 - i,
    {
        let ghost here = w@;
        let p: &PartitionMeta = &partitions[i];
        write_u32(w, p.start);
        write_u32(w, p.count);
        write_i32(w, p.root);
        write_u32(w, partition_node_counts[i]);
        write_qvec(w, &p.bbox_min);
        write_qvec(w, &p.bbox_max);
        assert(w@ =~= here + f(i as int));
        assert(w@ =~= before + head + bytes::flat((i + 1) as nat, f));
        i = i + 1;
    }
    assert(w@ =~= before + (head + bytes::flat(256, f)));
}

pub fn write_node(w: &mut Vec<u8>, node: &KdNode)
    ensures
        final(w)@ == old(w)@ + node_bytes(*node),
{
    let ghost before = w@;
    write_qvec(w, &node.bbox_min);
    write_qvec(w, &node.bbox_max);
    write_i32(w, node.left);
    write_i32(w, node.right);
    write_u32(w, node.start);
    write_u32(w, node.count);
    assert(w@ =~= before + node_bytes(*node));
}

pub fn write_nodes(w: &mut Vec<u8>, nodes: &[KdNode])
    ensures
        final(w)@ == old(w)@ + nodes_bytes(nodes@),
{
    let ghost before = w@;
    let ghost f = |i: int| node_bytes(nodes@[i]);
    assert(w@ =~= before + bytes::flat(0, f));
    let mut i: usize = 0;
    while i < nodes.len()
        invariant
            i <= nodes@.len(),
            f == (|i: int| node_bytes(nodes@[i])),
            w@ == before + bytes::flat(i as nat, f),
        decreases nodes@.len() - i,
    {
        write_node(w, &nodes[i]);
        assert(w@ =~= before + bytes::flat((i + 1) as nat, f));
        i = i + 1;
    }
}

pub fn write_vectors_section(w: &mut Vec<u8>, records: &[BuildRecord])
    ensures
        final(w)@ == old(w)@ + vectors_bytes(records@),
{
    let ghost before = w@;
    let ghost f = |i: int| bytes::qvec_bytes(records@[i].qvec);
    assert(w@ =~= before + bytes::flat(0, f));
    let mut i: usize = 0;
    while i < records.len()
        invariant
            i <= records@.len(),
            f == (|i: int| bytes::qvec_bytes(records@[i].qvec)),
            w@ == before + bytes::flat(i as nat, f),
        decreases records@.len() - i,
    {
        write_qvec(w, &records[i].qvec);
        assert(w@ =~= before + bytes::flat((i + 1) as nat, f));
        i = i + 1;
    }
}

pub fn write_stage_section(w: &mut Vec<u8>, records: &[BuildRecord], dims: &[usize])
    requires
        forall|j: int| 0 <= j < dims@.len() ==> (#[trigger] dims@[j]) < STORE_DIM,
    ensures
        final(w)@ == old(w)@ + stage_bytes(records@, dims@),
{
    let ghost before = w@;
    let ghost f = |i: int| stage_entry(records@[i].qvec, dims@);
    assert(w@ =~= before + bytes::flat(0, f));
    let mut i: usize = 0;
    while i < records.len()
        invariant
            i <= records@.len(),
            forall|j: int| 0 <= j < dims@.len() ==> (#[trigger] dims@[j]) < STORE_DIM,
            f == (|i: int| stage_entry(records@[i].qvec, dims@)),
            w@ == before + bytes::flat(i as nat, f),
        decreases records@.len() - i,
    {
        let ghost here = w@;
        let q: QVec = records[i].qvec;
        let ghost g = |j: int| bytes::i16_bytes(q.0@[dims@[j] as int]);
        assert(w@ =~= here + bytes::flat(0, g));
        let mut j: usize = 0;
        while j < dims.len()
            invariant
                j <= dims@.len(),
                forall|j: int| 0 <= j < dims@.len() ==> (#[trigger] dims@[j]) < STORE_DIM,
                g == (|j: int| bytes::i16_bytes(q.0@[dims@[j] as int])),
                w@ == here + bytes::flat(j as nat, g),
            decreases dims@.len() - j,
        {
            write_i16(w, q.0[dims[j]]);
            assert(w@ =~= here + bytes::flat((j + 1) as nat, g));
            j = j + 1;
        }
        assert(w@ =~= before + bytes::flat((i + 1) as nat, f));
        i = i + 1;
    }
}

pub fn write_labels_section(w: &mut Vec<u8>, records: &[BuildRecord])
    ensures
        final(w)@ == old(w)@ + labels_bytes(records@),
{
    let ghost before = w@;
    let mut i: usize = 0;
    assert(w@ =~= before + labels_bytes(records@).take(0));
    while i < records.len()
        invariant
            i <= records@.len(),
            w@ == before + labels_bytes(records@).take(i as int),
        decreases records@.len() - i,
    {
        w.push(records[i].label);
        assert(w@ =~= before + labels_bytes(records@).take(i + 1));
        i = i + 1;
    }
    assert(labels_bytes(records@).take(i as int) =~= labels_bytes(records@));
}

/// Writes zeroes until `target` bytes are written; none where there are as many already.
pub fn write_padding_to(w: &mut Vec<u8>, written: &mut usize, target: usize)
    ensures
        final(w)@ == old(w)@ + bytes::zeroes(
            if target > *old(written) {
                target - *old(written)
            } else {
                0
            },
        ),
        *final(written) == (if target > *old(written) {
            target
        } else {
            *old(written)
        }),
{
    let ghost before = w@;
    let ghost start = *written;
    assert(w@ =~= before + bytes::zeroes(0));
    while *written < target
        invariant
            start <= *written,
            *written <= target || *written == start,
            w@ == before + bytes::zeroes(*written - start),
        decreases target - *written,
    {
        w.push(0);
        *written = *written + 1;
        assert(w@ =~= before + bytes::zeroes(*written - start));
    }
}

proof fn lemma_rounding(v: int, r: int)
    requires
        0 <= v <= r < v + 64,
        r % 64 == 0,
    ensures
        r == round_up(v),
{
}

fn round_up_to_line(v: usize) -> (r: usize)
    requires
        v + 64 <= usize::MAX,
    ensures
        r == round_up(v as int),
{
    proof {
        index::lemma_small_powers_of_two();
    }
    let r: usize = align_up(v, CACHELINE);
    proof {
        lemma_rounding(v as int, r as int);
    }
    r
}

/// Where the sections of an index file stand.
struct Layout {
    nodes_off: usize,
    hot4_off: usize,
    mid4_off: usize,
    cold8_off: usize,
    labels_off: usize,
    total_len: usize,
}

impl Layout {
    spec fn of(self, nodes: int, records: int) -> bool {
        &&& self.nodes_off == nodes_off()
        &&& self.hot4_off == hot4_off(nodes)
        &&& self.mid4_off == mid4_off(nodes, records)
        &&& self.cold8_off == cold8_off(nodes, records)
        &&& self.labels_off == labels_off(nodes, records)
        &&& self.total_len == total_len(nodes, records)
    }
}

fn layout(nodes: usize, records: usize) -> (r: Layout)
    requires
        total_len(nodes as int, records as int) + CACHELINE <= usize::MAX,
    ensures
        r.of(nodes as int, records as int),
{
    let nodes_off: usize = round_up_to_line(INDEX_FILE_HEADER_LEN + partition_bytes_len());
    let hot4_off: usize = round_up_to_line(nodes_off + nodes * node_bytes_len());
    let mid4_off: usize = round_up_to_line(hot4_off + records * 8);
    let cold8_off: usize = round_up_to_line(mid4_off + records * 8);
    let labels_off: usize = round_up_to_line(cold8_off + records * 16);
    let total_len: usize = labels_off + records;
    Layout { nodes_off, hot4_off, mid4_off, cold8_off, labels_off, total_len }
}

fn write_header(w: &mut Vec<u8>, nodes: usize, records: usize, at: &Layout)
    requires
        at.of(nodes as int, records as int),
    ensures
        final(w)@ == old(w)@ + header_bytes(nodes as int, records as int),
        header_bytes(nodes as int, records as int).len() == RAW_INDEX_FILE_HEADER_LEN,
{
    let ghost before = w@;
    write_bytes(w, INDEX_FILE_MAGIC.as_slice());
    write_u32(w, INDEX_VERSION);
    write_u32(w, DIM as u32);
    write_u32(w, STORE_DIM as u32);
    write_u32(w, FIXED_SCALE as u32);
    let ghost start = header_start();
    assert(w@ =~= before + start);
    let words: [u64; 10] = [
        records as u64,
        nodes as u64,
        INDEX_FILE_HEADER_LEN as u64,
        at.nodes_off as u64,
        at.hot4_off as u64,
        at.mid4_off as u64,
        at.cold8_off as u64,
        0,
        at.labels_off as u64,
        at.total_len as u64,
    ];
    let ghost f = |i: int| bytes::u64_bytes(header_words(nodes as int, records as int)[i]);
    assert(words@ =~= header_words(nodes as int, records as int));
    assert(w@ =~= before + start + bytes::flat(0, f));
    let mut i: usize = 0;
    while i < 10
        invariant
            i <= 10,
            words@ == header_words(nodes as int, records as int),
            f == (|i: int| bytes::u64_bytes(header_words(nodes as int, records as int)[i])),
            w@ == before + start + bytes::flat(i as nat, f),
        decreases 10 - i,
    {
        write_u64(w, words[i]);
        assert(w@ =~= before + start + bytes::flat((i + 1) as nat, f));
        i = i + 1;
    }
    proof {
        reveal(header_bytes);
        bytes::lemma_flat(10, f, 8);
        assert(w@ =~= before + (start + bytes::flat(10, f)));
    }
}

proof fn lemma_placed(before: Seq<u8>, s: Seq<u8>, len: int, section: Seq<u8>)
    requires
        s.len() <= len,
    ensures
        before + s + bytes::zeroes(len - s.len()) + section == before + placed(s, len, section),
        placed(s, len, section).len() == len + section.len(),
{
    assert(before + s + bytes::zeroes(len - s.len()) + section =~= before + placed(
        s,
        len,
        section,
    ));
}

/// Writes the section of one stage at `off`; `file` is what has been written of the file.
fn write_stage_at(
    w: &mut Vec<u8>,
    written: &mut usize,
    off: usize,
    records: &[BuildRecord],
    dims: &[usize],
    Ghost(before): Ghost<Seq<u8>>,
    Ghost(file): Ghost<Seq<u8>>,
)
    requires
        old(w)@ == before + file,
        file.len() == *old(written),
        *old(written) <= off,
        dims@.len() <= 8,
        off + records@.len() * (dims@.len() * 2) <= usize::MAX,
        forall|j: int| 0 <= j < dims@.len() ==> (#[trigger] dims@[j]) < STORE_DIM,
    ensures
        final(w)@ == before + placed(file, off as int, stage_bytes(records@, dims@)),
        placed(file, off as int, stage_bytes(records@, dims@)).len() == *final(written),
        *final(written) == off + records@.len() * (dims@.len() * 2),
{
    write_padding_to(w, written, off);
    write_stage_section(w, records, dims);
    *written = *written + records.len() * (dims.len() * 2);
    proof {
        lemma_stage_len(records@, dims@);
        lemma_placed(before, file, off as int, stage_bytes(records@, dims@));
    }
}

fn write_head_sections(
    w: &mut Vec<u8>,
    at: &Layout,
    records: usize,
    partitions: &[PartitionMeta],
    partition_node_counts: &[u32],
    nodes: &[KdNode],
) -> (written: usize)
    requires
        partitions@.len() == 256,
        partition_node_counts@.len() == 256,
        at.of(nodes@.len() as int, records as int),
    ensures
        final(w)@ == old(w)@ + head_sections(
            records as int,
            partitions@,
            partition_node_counts@,
            nodes@,
        ),
        head_sections(records as int, partitions@, partition_node_counts@, nodes@).len() == written,
        written == nodes_off() + nodes@.len() * NODE_BYTES,
{
    reveal(head_sections);
    let ghost before = w@;
    let ghost m = nodes@.len() as int;
    let ghost n = records as int;
    write_header(w, nodes.len(), records, at);
    let ghost a = header_bytes(m, n);
    let mut written: usize = RAW_INDEX_FILE_HEADER_LEN;
    write_padding_to(w, &mut written, INDEX_FILE_HEADER_LEN);
    write_partitions(w, records as u64, nodes.len() as u64, partitions, partition_node_counts);
    written = written + partition_bytes_len();
    let ghost section = partitions_bytes(n as u64, m as u64, partitions@, partition_node_counts@);
    let ghost b = placed(a, 128, section);
    proof {
        lemma_partitions_len(n as u64, m as u64, partitions@, partition_node_counts@);
        lemma_placed(before, a, 128, section);
    }
    assert(w@ == before + b);
    write_padding_to(w, &mut written, at.nodes_off);
    write_nodes(w, nodes);
    written = written + nodes.len() * node_bytes_len();
    proof {
        lemma_nodes_len(nodes@);
        lemma_placed(before, b, at.nodes_off as int, nodes_bytes(nodes@));
    }
    written
}

fn round_up_wide(v: u128) -> (r: u128)
    requires
        v <= u128::MAX - 63,
    ensures
        r == round_up(v as int),
{
    (v + 63) / 64 * 64
}

/// The length of an index file with so many nodes and records, if it can be written here.
pub fn index_file_len(nodes: usize, records: usize) -> (r: Option<usize>)
    ensures
        match r {
            Some(n) => {
                &&& n == total_len(nodes as int, records as int)
                &&& n + CACHELINE <= usize::MAX
            },
            None => total_len(nodes as int, records as int) + CACHELINE > usize::MAX,
        },
{
    let m: u128 = nodes as u128;
    let n: u128 = records as u128;
    let nodes_off: u128 = round_up_wide(INDEX_FILE_HEADER_LEN as u128 + PARTITION_BYTES as u128);
    let hot4_off: u128 = round_up_wide(nodes_off + m * 80);
    let mid4_off: u128 = round_up_wide(hot4_off + n * 8);
    let cold8_off: u128 = round_up_wide(mid4_off + n * 8);
    let labels_off: u128 = round_up_wide(cold8_off + n * 16);
    let total: u128 = labels_off + n;
    if total + 64 <= usize::MAX as u128 {
        Some(total as usize)
    } else {
        None
    }
}

/// Writes an index file.
pub fn write_index_file(
    w: &mut Vec<u8>,
    records: &[BuildRecord],
    partitions: &[PartitionMeta],
    partition_node_counts: &[u32],
    nodes: &[KdNode],
)
    requires
        partitions@.len() == 256,
        partition_node_counts@.len() == 256,
        total_len(nodes@.len() as int, records@.len() as int) + CACHELINE <= usize::MAX,
    ensures
        final(w)@ == old(w)@ + index_file_bytes(
            records@,
            partitions@,
            partition_node_counts@,
            nodes@,
        ),
{
    let ghost before = w@;
    let ghost m = nodes@.len() as int;
    let ghost n = records@.len() as int;
    let at: Layout = layout(nodes.len(), records.len());
    let mut written: usize = write_head_sections(
        w,
        &at,
        records.len(),
        partitions,
        partition_node_counts,
        nodes,
    );
    let ghost c = head_sections(n, partitions@, partition_node_counts@, nodes@);
    write_stage_at(
        w,
        &mut written,
        at.hot4_off,
        records,
        HOT_DIMS.as_slice(),
        Ghost(before),
        Ghost(c),
    );
    let ghost d = placed(c, at.hot4_off as int, stage_bytes(records@, HOT_DIMS@));
    write_stage_at(
        w,
        &mut written,
        at.mid4_off,
        records,
        MID_DIMS.as_slice(),
        Ghost(before),
        Ghost(d),
    );
    let ghost e = placed(d, at.mid4_off as int, stage_bytes(records@, MID_DIMS@));
    write_stage_at(
        w,
        &mut written,
        at.cold8_off,
        records,
        COLD_SIMD_DIMS.as_slice(),
        Ghost(before),
        Ghost(e),
    );
    let ghost f = placed(e, at.cold8_off as int, stage_bytes(records@, COLD_SIMD_DIMS@));
    write_padding_to(w, &mut written, at.labels_off);
    write_labels_section(w, records);
    proof {
        reveal(index_file_bytes);
        lemma_placed(before, f, at.labels_off as int, labels_bytes(records@));
    }
}

} // verus!
