//! What is written of an index is read back as it was.
use crate::builder;
use crate::builder::Built;
use crate::bytes;
use crate::index::{
    KdNode, PartitionMeta, QVec, COLD_SIMD_DIMS, DIM, FIXED_SCALE, HOT_DIMS, INDEX_FILE_HEADER_LEN,
    INDEX_FILE_MAGIC, INDEX_VERSION, MID_DIMS, PARTITIONS_MAGIC, STORE_DIM,
};
use crate::kd::BuildRecord;
use crate::layout;
use crate::load;
use crate::search::Index;
use vstd::prelude::*;

verus! {

/// The records that the first `k` partitions count.
pub open spec fn total_count(partitions: Seq<PartitionMeta>, k: int) -> int
    decreases k,
{
    if k <= 0 {
        0
    } else {
        total_count(partitions, k - 1) + partitions[k - 1].count
    }
}

proof fn lemma_sub(data: Seq<u8>, at: int, e: Seq<u8>, i: int, j: int)
    requires
        0 <= at,
        at + e.len() <= data.len(),
        data.subrange(at, at + e.len()) == e,
        0 <= i <= j <= e.len(),
    ensures
        data.subrange(at + i, at + j) == e.subrange(i, j),
{
    assert(data.subrange(at + i, at + j) =~= data.subrange(at, at + e.len()).subrange(i, j));
}

proof fn lemma_entry_node_count(data: Seq<u8>, at: int, p: PartitionMeta, nc: u32)
    requires
        0 <= at,
        at + 80 <= data.len(),
        data.subrange(at, at + 80) == layout::partition_entry(p, nc),
    ensures
        bytes::u32_at(data, at + 12) == nc,
{
    let e = layout::partition_entry(p, nc);
    layout::lemma_partition_entry_len(p, nc);
    lemma_sub(data, at, e, 12, 16);
    assert(e.subrange(12, 16) =~= bytes::u32_bytes(nc));
    bytes::law_u32_reads_back(data, at + 12, nc);
}

proof fn lemma_entry_reads_back(data: Seq<u8>, at: int, p: PartitionMeta, nc: u32)
    requires
        0 <= at,
        at + 80 <= data.len(),
        data.subrange(at, at + 80) == layout::partition_entry(p, nc),
    ensures
        bytes::u32_at(data, at) == p.start,
        bytes::u32_at(data, at + 4) == p.count,
        bytes::i32_at(data, at + 8) == p.root,
        bytes::is_qvec_at(data, at + 16, p.bbox_min),
        bytes::is_qvec_at(data, at + 48, p.bbox_max),
{
    let e = layout::partition_entry(p, nc);
    layout::lemma_partition_entry_len(p, nc);
    bytes::lemma_qvec_bytes_len(p.bbox_min);
    bytes::lemma_qvec_bytes_len(p.bbox_max);
    lemma_sub(data, at, e, 0, 4);
    lemma_sub(data, at, e, 4, 8);
    lemma_sub(data, at, e, 8, 12);
    lemma_sub(data, at, e, 16, 48);
    lemma_sub(data, at, e, 48, 80);
    assert(e.subrange(0, 4) =~= bytes::u32_bytes(p.start));
    assert(e.subrange(4, 8) =~= bytes::u32_bytes(p.count));
    assert(e.subrange(8, 12) =~= bytes::i32_bytes(p.root));
    assert(e.subrange(16, 48) =~= bytes::qvec_bytes(p.bbox_min));
    assert(e.subrange(48, 80) =~= bytes::qvec_bytes(p.bbox_max));
    bytes::law_u32_reads_back(data, at, p.start);
    bytes::law_u32_reads_back(data, at + 4, p.count);
    bytes::law_i32_reads_back(data, at + 8, p.root);
    bytes::law_qvec_reads_back(data, at + 16, p.bbox_min);
    bytes::law_qvec_reads_back(data, at + 48, p.bbox_max);
}

pub proof fn lemma_node_reads_back(data: Seq<u8>, i: int, node: KdNode)
    requires
        0 <= i,
        80 * i + 80 <= data.len(),
        data.subrange(80 * i, 80 * i + 80) == layout::node_bytes(node),
    ensures
        load::is_node_at(data, i, node),
{
    let at = 80 * i;
    let e = layout::node_bytes(node);
    layout::lemma_node_len(node);
    bytes::lemma_qvec_bytes_len(node.bbox_min);
    bytes::lemma_qvec_bytes_len(node.bbox_max);
    lemma_sub(data, at, e, 0, 32);
    lemma_sub(data, at, e, 32, 64);
    lemma_sub(data, at, e, 64, 68);
    lemma_sub(data, at, e, 68, 72);
    lemma_sub(data, at, e, 72, 76);
    lemma_sub(data, at, e, 76, 80);
    assert(e.subrange(0, 32) =~= bytes::qvec_bytes(node.bbox_min));
    assert(e.subrange(32, 64) =~= bytes::qvec_bytes(node.bbox_max));
    assert(e.subrange(64, 68) =~= bytes::i32_bytes(node.left));
    assert(e.subrange(68, 72) =~= bytes::i32_bytes(node.right));
    assert(e.subrange(72, 76) =~= bytes::u32_bytes(node.start));
    assert(e.subrange(76, 80) =~= bytes::u32_bytes(node.count));
    bytes::law_qvec_reads_back(data, at, node.bbox_min);
    bytes::law_qvec_reads_back(data, at + 32, node.bbox_max);
    bytes::law_i32_reads_back(data, at + 64, node.left);
    bytes::law_i32_reads_back(data, at + 68, node.right);
    bytes::law_u32_reads_back(data, at + 72, node.start);
    bytes::law_u32_reads_back(data, at + 76, node.count);
}

proof fn lemma_qvec_at_unique(data: Seq<u8>, pos: int, a: QVec, b: QVec)
    requires
        bytes::is_qvec_at(data, pos, a),
        bytes::is_qvec_at(data, pos, b),
    ensures
        a == b,
{
    assert forall|d: int| 0 <= d < 16 implies #[trigger] a.at(d) == b.at(d) by {
        assert(b.at(d) == bytes::i16_at(data, pos + 2 * d));
    }
    bytes::lemma_qvec_ext(a, b);
}

proof fn lemma_counted(data: Seq<u8>, partitions: Seq<PartitionMeta>, k: int)
    requires
        0 <= k <= 256,
        partitions.len() == 256,
        forall|j: int|
            0 <= j < 256 ==> bytes::u32_at(data, 28 + 80 * j + 4) == (#[trigger] partitions[j]).count,
    ensures
        load::counted(data, k) == total_count(partitions, k),
    decreases k,
{
    if k > 0 {
        lemma_counted(data, partitions, k - 1);
        assert(partitions[k - 1].count == bytes::u32_at(data, 28 + 80 * (k - 1) + 4));
    }
}

/// Partitions and nodes that were written are accepted, and what is read of them is what
/// was written.
pub proof fn law_partition_files_read_back(
    count: u64,
    partitions: Seq<PartitionMeta>,
    node_counts: Seq<u32>,
    nodes: Seq<KdNode>,
    read_partitions: Seq<PartitionMeta>,
    read_nodes: Seq<KdNode>,
)
    requires
        partitions.len() == 256,
        nodes.len() <= u64::MAX,
        total_count(partitions, 256) == count,
        forall|k: int| 0 <= k < 256 ==> (#[trigger] partitions[k])._pad == 0,
    ensures
        ({
            let pdata = layout::partitions_bytes(
                count,
                nodes.len() as u64,
                partitions,
                node_counts,
            );
            let ndata = layout::nodes_bytes(nodes);
            &&& load::partition_files_error(pdata, ndata, count as int) is None
            &&& load::are_partitions(pdata, partitions)
            &&& load::are_nodes(ndata, nodes)
            &&& load::are_partitions(pdata, read_partitions) ==> read_partitions == partitions
            &&& load::are_nodes(ndata, read_nodes) ==> read_nodes == nodes
        }),
{
    let m = nodes.len() as u64;
    let head = layout::partitions_head(count, m);
    let f = |k: int| layout::partition_entry(partitions[k], node_counts[k]);
    let pdata = layout::partitions_bytes(count, m, partitions, node_counts);
    let ndata = layout::nodes_bytes(nodes);
    layout::lemma_partitions_len(count, m, partitions, node_counts);
    layout::lemma_nodes_len(nodes);
    assert(pdata.subrange(0, 8) =~= PARTITIONS_MAGIC@);
    assert(pdata.subrange(8, 12) =~= bytes::u32_bytes(INDEX_VERSION));
    assert(pdata.subrange(12, 20) =~= bytes::u64_bytes(count));
    assert(pdata.subrange(20, 28) =~= bytes::u64_bytes(m));
    bytes::law_u32_reads_back(pdata, 8, INDEX_VERSION);
    bytes::law_u64_reads_back(pdata, 12, count);
    bytes::law_u64_reads_back(pdata, 20, m);
    assert forall|k: int| 0 <= k < 256 implies (#[trigger] f(k)).len() == 80 by {
        layout::lemma_partition_entry_len(partitions[k], node_counts[k]);
    }
    bytes::lemma_flat(256, f, 80);
    assert forall|k: int| 0 <= k < 256 implies load::is_partition_at(
        pdata,
        k,
        #[trigger] partitions[k],
    ) by {
        assert(bytes::is_piece(bytes::flat(256, f), k, 80, f(k)));
        assert(pdata.subrange(28 + 80 * k, 28 + 80 * k + 80) =~= f(k));
        lemma_entry_reads_back(pdata, 28 + 80 * k, partitions[k], node_counts[k]);
    }
    lemma_counted(pdata, partitions, 256);
    let g = |i: int| layout::node_bytes(nodes[i]);
    assert forall|i: int| 0 <= i < nodes.len() implies (#[trigger] g(i)).len() == 80 by {
        layout::lemma_node_len(nodes[i]);
    }
    bytes::lemma_flat(nodes.len(), g, 80);
    assert forall|i: int| 0 <= i < nodes.len() implies load::is_node_at(
        ndata,
        i,
        #[trigger] nodes[i],
    ) by {
        assert(bytes::is_piece(ndata, i, 80, g(i)));
        lemma_node_reads_back(ndata, i, nodes[i]);
    }
    if load::are_partitions(pdata, read_partitions) {
        assert forall|k: int| 0 <= k < 256 implies read_partitions[k] == partitions[k] by {
            let a = read_partitions[k];
            let b = partitions[k];
            assert(load::is_partition_at(pdata, k, a));
            assert(load::is_partition_at(pdata, k, b));
            lemma_qvec_at_unique(pdata, 28 + 80 * k + 16, a.bbox_min, b.bbox_min);
            lemma_qvec_at_unique(pdata, 28 + 80 * k + 48, a.bbox_max, b.bbox_max);
        }
        assert(read_partitions =~= partitions);
    }
    if load::are_nodes(ndata, read_nodes) {
        assert forall|i: int| 0 <= i < nodes.len() implies read_nodes[i] == nodes[i] by {
            let a = read_nodes[i];
            let b = nodes[i];
            assert(load::is_node_at(ndata, i, a));
            assert(load::is_node_at(ndata, i, b));
            lemma_qvec_at_unique(ndata, 80 * i, a.bbox_min, b.bbox_min);
            lemma_qvec_at_unique(ndata, 80 * i + 32, a.bbox_max, b.bbox_max);
        }
        assert(read_nodes =~= nodes);
    }
}

/// What stands in a file stays where it is when a section is added, and the section stands
/// where it was placed.
proof fn lemma_section(s: Seq<u8>, len: int, section: Seq<u8>)
    requires
        s.len() <= len,
    ensures
        layout::placed(s, len, section).len() == len + section.len(),
        layout::placed(s, len, section).subrange(len, len + section.len()) == section,
        layout::placed(s, len, section).subrange(0, s.len() as int) == s,
{
    assert(layout::placed(s, len, section).subrange(len, len + section.len()) =~= section);
    assert(layout::placed(s, len, section).subrange(0, s.len() as int) =~= s);
}

proof fn lemma_kept(s: Seq<u8>, t: Seq<u8>, i: int, j: int)
    requires
        0 <= i <= j <= s.len() <= t.len(),
        t.subrange(0, s.len() as int) == s,
    ensures
        t.subrange(i, j) == s.subrange(i, j),
{
    assert(t.subrange(i, j) =~= t.subrange(0, s.len() as int).subrange(i, j));
}

/// The stage sections of `data` are those of the records.
spec fn has_stage(data: Seq<u8>, off: int, records: Seq<BuildRecord>, dims: Seq<usize>) -> bool {
    let len = layout::stage_bytes(records, dims).len();
    0 <= off && off + len <= data.len() && data.subrange(off, off + len) == layout::stage_bytes(
        records,
        dims,
    )
}

/// Every part of an index file stands where its header says.
spec fn has_sections(
    data: Seq<u8>,
    records: Seq<BuildRecord>,
    partitions: Seq<PartitionMeta>,
    node_counts: Seq<u32>,
    nodes: Seq<KdNode>,
) -> bool {
    let m = nodes.len() as int;
    let n = records.len() as int;
    let no = layout::nodes_off();
    let lo = layout::labels_off(m, n);
    &&& data.len() == layout::total_len(m, n)
    &&& data.subrange(0, 104) == layout::header_bytes(m, n)
    &&& data.subrange(128, 20_636) == layout::partitions_bytes(
        n as u64,
        m as u64,
        partitions,
        node_counts,
    )
    &&& data.subrange(no, no + m * 80) == layout::nodes_bytes(nodes)
    &&& has_stage(data, layout::hot4_off(m), records, HOT_DIMS@)
    &&& has_stage(data, layout::mid4_off(m, n), records, MID_DIMS@)
    &&& has_stage(data, layout::cold8_off(m, n), records, COLD_SIMD_DIMS@)
    &&& data.subrange(lo, lo + n) == layout::labels_bytes(records)
}

proof fn lemma_header_len(m: int, n: int)
    ensures
        layout::header_bytes(m, n).len() == 104,
{
    reveal(layout::header_bytes);
    bytes::lemma_flat(10, |i: int| bytes::u64_bytes(layout::header_words(m, n)[i]), 8);
}

proof fn lemma_head_sections(
    n: int,
    partitions: Seq<PartitionMeta>,
    node_counts: Seq<u32>,
    nodes: Seq<KdNode>,
)
    ensures
        ({
            let m = nodes.len() as int;
            let no = layout::nodes_off();
            let c = layout::head_sections(n, partitions, node_counts, nodes);
            &&& c.len() == no + m * 80
            &&& c.subrange(0, 104) == layout::header_bytes(m, n)
            &&& c.subrange(128, 20_636) == layout::partitions_bytes(
                n as u64,
                m as u64,
                partitions,
                node_counts,
            )
            &&& c.subrange(no, no + m * 80) == layout::nodes_bytes(nodes)
        }),
{
    reveal(layout::head_sections);
    let m = nodes.len() as int;
    let no = layout::nodes_off();
    let a = layout::header_bytes(m, n);
    let p = layout::partitions_bytes(n as u64, m as u64, partitions, node_counts);
    let b = layout::placed(a, 128, p);
    let c = layout::placed(b, no, layout::nodes_bytes(nodes));
    lemma_header_len(m, n);
    layout::lemma_partitions_len(n as u64, m as u64, partitions, node_counts);
    layout::lemma_nodes_len(nodes);
    lemma_section(a, 128, p);
    lemma_section(b, no, layout::nodes_bytes(nodes));
    lemma_kept(b, c, 0, 104);
    lemma_kept(b, c, 128, 20_636);
}

proof fn lemma_sections(
    records: Seq<BuildRecord>,
    partitions: Seq<PartitionMeta>,
    node_counts: Seq<u32>,
    nodes: Seq<KdNode>,
)
    ensures
        has_sections(
            layout::index_file_bytes(records, partitions, node_counts, nodes),
            records,
            partitions,
            node_counts,
            nodes,
        ),
{
    reveal(layout::index_file_bytes);
    let m = nodes.len() as int;
    let n = records.len() as int;
    let no = layout::nodes_off();
    let ho = layout::hot4_off(m);
    let mo = layout::mid4_off(m, n);
    let co = layout::cold8_off(m, n);
    let lo = layout::labels_off(m, n);
    let hot = layout::stage_bytes(records, HOT_DIMS@);
    let mid = layout::stage_bytes(records, MID_DIMS@);
    let cold = layout::stage_bytes(records, COLD_SIMD_DIMS@);
    let labels = layout::labels_bytes(records);
    layout::lemma_stage_len(records, HOT_DIMS@);
    layout::lemma_stage_len(records, MID_DIMS@);
    layout::lemma_stage_len(records, COLD_SIMD_DIMS@);
    lemma_head_sections(n, partitions, node_counts, nodes);
    let c = layout::head_sections(n, partitions, node_counts, nodes);
    let d = layout::placed(c, ho, hot);
    let e = layout::placed(d, mo, mid);
    let f = layout::placed(e, co, cold);
    let g = layout::placed(f, lo, labels);
    assert(HOT_DIMS@.len() == 4 && MID_DIMS@.len() == 4 && COLD_SIMD_DIMS@.len() == 8);
    assert(hot.len() == n * 8 && mid.len() == n * 8 && cold.len() == n * 16);
    lemma_section(c, ho, hot);
    lemma_section(d, mo, mid);
    lemma_section(e, co, cold);
    lemma_section(f, lo, labels);
    // the head stays
    lemma_kept(c, d, 0, 104);
    lemma_kept(d, e, 0, 104);
    lemma_kept(e, f, 0, 104);
    lemma_kept(f, g, 0, 104);
    lemma_kept(c, d, 128, 20_636);
    lemma_kept(d, e, 128, 20_636);
    lemma_kept(e, f, 128, 20_636);
    lemma_kept(f, g, 128, 20_636);
    lemma_kept(c, d, no, no + m * 80);
    lemma_kept(d, e, no, no + m * 80);
    lemma_kept(e, f, no, no + m * 80);
    lemma_kept(f, g, no, no + m * 80);
    // the stages stay
    lemma_kept(d, e, ho, ho + n * 8);
    lemma_kept(e, f, ho, ho + n * 8);
    lemma_kept(f, g, ho, ho + n * 8);
    lemma_kept(e, f, mo, mo + n * 8);
    lemma_kept(f, g, mo, mo + n * 8);
    lemma_kept(f, g, co, co + n * 16);
}

/// The header says what was written.
proof fn lemma_header_reads_back(data: Seq<u8>, m: int, n: int)
    requires
        0 <= m,
        0 <= n,
        layout::total_len(m, n) <= u64::MAX,
        data.len() >= 104,
        data.subrange(0, 104) == layout::header_bytes(m, n),
    ensures
        bytes::holds_at(data, 0, INDEX_FILE_MAGIC@),
        bytes::u32_at(data, 8) == INDEX_VERSION,
        bytes::u32_at(data, 12) == DIM,
        bytes::u32_at(data, 16) == STORE_DIM,
        bytes::u32_at(data, 20) == FIXED_SCALE,
        load::word_at(data, 0) == n,
        load::word_at(data, 1) == m,
        load::word_at(data, 2) == INDEX_FILE_HEADER_LEN,
        load::word_at(data, 3) == layout::nodes_off(),
        load::word_at(data, 4) == layout::hot4_off(m),
        load::word_at(data, 5) == layout::mid4_off(m, n),
        load::word_at(data, 6) == layout::cold8_off(m, n),
        load::word_at(data, 7) == 0,
        load::word_at(data, 8) == layout::labels_off(m, n),
        load::word_at(data, 9) == layout::total_len(m, n),
{
    let h = layout::header_bytes(m, n);
    lemma_header_len(m, n);
    let words = layout::header_words(m, n);
    let f = |i: int| bytes::u64_bytes(layout::header_words(m, n)[i]);
    let start = layout::header_start();
    let tail = bytes::flat(10, f);
    bytes::lemma_flat(10, f, 8);
    assert(h == start + tail) by {
        reveal(layout::header_bytes);
    }
    assert(start.len() == 24);
    assert(start.subrange(0, 8) =~= INDEX_FILE_MAGIC@);
    assert(start.subrange(8, 12) =~= bytes::u32_bytes(INDEX_VERSION));
    assert(start.subrange(12, 16) =~= bytes::u32_bytes(DIM as u32));
    assert(start.subrange(16, 20) =~= bytes::u32_bytes(STORE_DIM as u32));
    assert(start.subrange(20, 24) =~= bytes::u32_bytes(FIXED_SCALE as u32));
    assert(data.subrange(0, 24) =~= start) by {
        lemma_sub(data, 0, h, 0, 24);
        assert(h.subrange(0, 24) =~= start);
    }
    lemma_sub(data, 0, start, 0, 8);
    lemma_sub(data, 0, start, 8, 12);
    lemma_sub(data, 0, start, 12, 16);
    lemma_sub(data, 0, start, 16, 20);
    lemma_sub(data, 0, start, 20, 24);
    bytes::law_u32_reads_back(data, 8, INDEX_VERSION);
    bytes::law_u32_reads_back(data, 12, DIM as u32);
    bytes::law_u32_reads_back(data, 16, STORE_DIM as u32);
    bytes::law_u32_reads_back(data, 20, FIXED_SCALE as u32);
    assert forall|i: int| 0 <= i < 10 implies load::word_at(data, i) == #[trigger] words[i] by {
        assert(bytes::is_piece(tail, i, 8, f(i)));
        lemma_sub(data, 0, h, 24 + 8 * i, 32 + 8 * i);
        assert(h.subrange(24 + 8 * i, 32 + 8 * i) =~= f(i));
        bytes::law_u64_reads_back(data, 24 + 8 * i, words[i]);
    }
    assert(words[0] == n as u64 && words[1] == m as u64 && words[2] == 128 && words[3]
        == layout::nodes_off() as u64 && words[4] == layout::hot4_off(m) as u64 && words[5]
        == layout::mid4_off(m, n) as u64 && words[6] == layout::cold8_off(m, n) as u64 && words[7] == 0 && words[8]
        == layout::labels_off(m, n) as u64 && words[9] == layout::total_len(m, n) as u64);
}

/// The coordinates of record `i` stand where the stage has them.
proof fn lemma_stage_entry_at(
    data: Seq<u8>,
    off: int,
    records: Seq<BuildRecord>,
    dims: Seq<usize>,
    i: int,
)
    requires
        has_stage(data, off, records, dims),
        0 <= i < records.len(),
    ensures
        ({
            let at = off + i * (dims.len() * 2);
            &&& 0 <= at
            &&& at + dims.len() * 2 <= data.len()
            &&& data.subrange(at, at + dims.len() * 2) == layout::stage_entry(
                records[i].qvec,
                dims,
            )
        }),
{
    let c = (dims.len() * 2) as nat;
    let section = layout::stage_bytes(records, dims);
    let f = |i: int| layout::stage_entry(records[i].qvec, dims);
    assert forall|k: int| 0 <= k < records.len() implies (#[trigger] f(k)).len() == c by {
        layout::lemma_stage_entry_len(records[k].qvec, dims);
    }
    bytes::lemma_flat(records.len(), f, c);
    assert(bytes::is_piece(section, i, c as int, f(i)));
    lemma_sub(data, off, section, i * c, i * c + c);
}

proof fn lemma_stage_entry_reads_back(data: Seq<u8>, at: int, q: QVec, dims: Seq<usize>, j: int)
    requires
        0 <= at,
        at + dims.len() * 2 <= data.len(),
        data.subrange(at, at + dims.len() * 2) == layout::stage_entry(q, dims),
        0 <= j < dims.len(),
        dims[j] < 16,
    ensures
        q.at(dims[j] as int) == bytes::i16_at(data, at + 2 * j),
{
    let v = q.0@[dims[j] as int];
    assert(data.subrange(at + 2 * j, at + 2 * j + 2) == bytes::i16_bytes(v)) by {
        let g = |j: int| bytes::i16_bytes(q.0@[dims[j] as int]);
        let entry = layout::stage_entry(q, dims);
        layout::lemma_stage_entry_len(q, dims);
        assert(bytes::is_piece(entry, j, 2, g(j))) by {
            bytes::lemma_flat(dims.len(), g, 2);
        }
        lemma_sub(data, at, entry, 2 * j, 2 * j + 2);
    }
    bytes::law_i16_reads_back(data, at + 2 * j, v);
}

proof fn lemma_stage_reads_back(
    data: Seq<u8>,
    off: int,
    records: Seq<BuildRecord>,
    dims: Seq<usize>,
    i: int,
)
    requires
        has_stage(data, off, records, dims),
        0 <= i < records.len(),
        forall|j: int| 0 <= j < dims.len() ==> (#[trigger] dims[j]) < 16,
    ensures
        load::is_staged_at(data, off, dims, i, records[i].qvec),
{
    let q = records[i].qvec;
    let at = off + i * (dims.len() * 2);
    lemma_stage_entry_at(data, off, records, dims, i);
    assert forall|j: int| 0 <= j < dims.len() implies q.at(#[trigger] dims[j] as int)
        == bytes::i16_at(data, at + 2 * j) by {
        lemma_stage_entry_reads_back(data, at, q, dims, j);
    }
}

/// A vector is what its three stages say.
/// Coordinate `j` of record `i` stands in a stage that is written.
pub proof fn lemma_stage_coordinate(
    records: Seq<BuildRecord>,
    dims: Seq<usize>,
    i: int,
    j: int,
)
    requires
        0 <= i < records.len(),
        0 <= j < dims.len(),
        dims[j] < 16,
    ensures
        records[i].qvec.at(dims[j] as int) == bytes::i16_at(
            layout::stage_bytes(records, dims),
            i * (dims.len() * 2) + 2 * j,
        ),
{
    let s = layout::stage_bytes(records, dims);
    assert(s.subrange(0, s.len() as int) =~= s);
    lemma_stage_entry_at(s, 0, records, dims, i);
    lemma_stage_entry_reads_back(s, i * (dims.len() * 2), records[i].qvec, dims, j);
}

proof fn lemma_stages_determine(data: Seq<u8>, i: int, a: QVec, b: QVec)
    requires
        load::is_vector_at(data, i, a),
        load::is_vector_at(data, i, b),
    ensures
        a == b,
{
    assert forall|j: int| 0 <= j < 4 implies a.at(#[trigger] HOT_DIMS@[j] as int) == b.at(
        HOT_DIMS@[j] as int,
    ) by {}
    assert forall|j: int| 0 <= j < 4 implies a.at(#[trigger] MID_DIMS@[j] as int) == b.at(
        MID_DIMS@[j] as int,
    ) by {}
    assert forall|j: int| 0 <= j < 8 implies a.at(#[trigger] COLD_SIMD_DIMS@[j] as int) == b.at(
        COLD_SIMD_DIMS@[j] as int,
    ) by {}
    let h = HOT_DIMS@;
    let m = MID_DIMS@;
    let c = COLD_SIMD_DIMS@;
    assert(h[0] == 0 && h[1] == 1 && h[2] == 2 && h[3] == 8);
    assert(m[0] == 4 && m[1] == 6 && m[2] == 7 && m[3] == 13);
    assert(c[0] == 3 && c[1] == 5 && c[2] == 9 && c[3] == 10 && c[4] == 11 && c[5] == 12 && c[6]
        == 14 && c[7] == 15);
    assert forall|d: int| 0 <= d < 16 implies #[trigger] a.at(d) == b.at(d) by {}
    bytes::lemma_qvec_ext(a, b);
}

proof fn lemma_file_accepted(
    data: Seq<u8>,
    records: Seq<BuildRecord>,
    partitions: Seq<PartitionMeta>,
    node_counts: Seq<u32>,
    nodes: Seq<KdNode>,
    ix: Index,
)
    requires
        has_sections(data, records, partitions, node_counts, nodes),
        partitions.len() == 256,
        layout::total_len(nodes.len() as int, records.len() as int) <= u64::MAX,
        total_count(partitions, 256) == records.len(),
        forall|k: int| 0 <= k < 256 ==> (#[trigger] partitions[k])._pad == 0,
    ensures
        load::index_file_error(data) is None,
        has_stage(data, load::word_at(data, 4), records, HOT_DIMS@),
        has_stage(data, load::word_at(data, 5), records, MID_DIMS@),
        has_stage(data, load::word_at(data, 6), records, COLD_SIMD_DIMS@),
        load::holds_index_file(ix, data) ==> {
            &&& ix.count == records.len()
            &&& ix.labels@ == layout::labels_bytes(records)
            &&& ix.partitions@ == partitions
            &&& ix.nodes@ == nodes
        },
{
    let m = nodes.len() as int;
    let n = records.len() as int;
    lemma_header_reads_back(data, m, n);
    layout::lemma_stage_len(records, HOT_DIMS@);
    layout::lemma_stage_len(records, MID_DIMS@);
    layout::lemma_stage_len(records, COLD_SIMD_DIMS@);
    assert(HOT_DIMS@.len() == 4 && MID_DIMS@.len() == 4 && COLD_SIMD_DIMS@.len() == 8);
    assert(load::sections_fit(data));
    law_partition_files_read_back(
        n as u64,
        partitions,
        node_counts,
        nodes,
        ix.partitions@,
        ix.nodes@,
    );
}

proof fn lemma_file_vector(data: Seq<u8>, records: Seq<BuildRecord>, i: int, q: QVec)
    requires
        has_stage(data, load::word_at(data, 4), records, HOT_DIMS@),
        has_stage(data, load::word_at(data, 5), records, MID_DIMS@),
        has_stage(data, load::word_at(data, 6), records, COLD_SIMD_DIMS@),
        0 <= i < records.len(),
        load::is_vector_at(data, i, q),
    ensures
        q == records[i].qvec,
{
    lemma_stage_reads_back(data, load::word_at(data, 4), records, HOT_DIMS@, i);
    lemma_stage_reads_back(data, load::word_at(data, 5), records, MID_DIMS@, i);
    lemma_stage_reads_back(data, load::word_at(data, 6), records, COLD_SIMD_DIMS@, i);
    lemma_stages_determine(data, i, q, records[i].qvec);
}

/// What the head of a written index file says, and how long the file is.
pub proof fn lemma_written_head(
    records: Seq<BuildRecord>,
    partitions: Seq<PartitionMeta>,
    node_counts: Seq<u32>,
    nodes: Seq<KdNode>,
)
    requires
        layout::total_len(nodes.len() as int, records.len() as int) <= u64::MAX,
    ensures
        ({
            let data = layout::index_file_bytes(records, partitions, node_counts, nodes);
            let m = nodes.len() as int;
            let n = records.len() as int;
            &&& data.len() == layout::total_len(m, n)
            &&& bytes::holds_at(data, 0, INDEX_FILE_MAGIC@)
            &&& bytes::u32_at(data, 8) == INDEX_VERSION
            &&& bytes::u32_at(data, 12) == DIM
            &&& bytes::u32_at(data, 16) == STORE_DIM
            &&& bytes::u32_at(data, 20) == FIXED_SCALE
            &&& load::word_at(data, 0) == n
            &&& load::word_at(data, 1) == m
            &&& load::word_at(data, 2) == 128
            &&& load::word_at(data, 3) == layout::nodes_off()
            &&& load::word_at(data, 4) == layout::hot4_off(m)
            &&& load::word_at(data, 5) == layout::mid4_off(m, n)
            &&& load::word_at(data, 6) == layout::cold8_off(m, n)
            &&& load::word_at(data, 7) == 0
            &&& load::word_at(data, 8) == layout::labels_off(m, n)
            &&& load::word_at(data, 9) == layout::total_len(m, n)
            &&& data.subrange(128, 20_636) == layout::partitions_bytes(
                n as u64,
                m as u64,
                partitions,
                node_counts,
            )
        }),
{
    lemma_sections(records, partitions, node_counts, nodes);
    lemma_header_reads_back(
        layout::index_file_bytes(records, partitions, node_counts, nodes),
        nodes.len() as int,
        records.len() as int,
    );
}

/// What a written partition section says of its counts and of a partition.
pub proof fn lemma_written_partition(
    count: u64,
    nodes_count: u64,
    partitions: Seq<PartitionMeta>,
    node_counts: Seq<u32>,
    k: int,
)
    requires
        0 <= k < 256,
    ensures
        ({
            let data = layout::partitions_bytes(count, nodes_count, partitions, node_counts);
            let at = 28 + 80 * k;
            let p = partitions[k];
            &&& data.len() == 20_508
            &&& data.subrange(0, 8) == PARTITIONS_MAGIC@
            &&& bytes::u32_at(data, 8) == INDEX_VERSION
            &&& bytes::u64_at(data, 12) == count
            &&& bytes::u64_at(data, 20) == nodes_count
            &&& bytes::u32_at(data, at) == p.start
            &&& bytes::u32_at(data, at + 4) == p.count
            &&& bytes::i32_at(data, at + 8) == p.root
            &&& bytes::is_qvec_at(data, at + 16, p.bbox_min)
            &&& bytes::is_qvec_at(data, at + 48, p.bbox_max)
        }),
{
    let data = layout::partitions_bytes(count, nodes_count, partitions, node_counts);
    let f = |k: int| layout::partition_entry(partitions[k], node_counts[k]);
    assert forall|i: int| 0 <= i < 256 implies (#[trigger] f(i)).len() == 80 by {
        layout::lemma_partition_entry_len(partitions[i], node_counts[i]);
    }
    bytes::lemma_flat(256, f, 80);
    layout::lemma_partitions_len(count, nodes_count, partitions, node_counts);
    assert(data.subrange(0, 8) =~= PARTITIONS_MAGIC@);
    assert(data.subrange(8, 12) =~= bytes::u32_bytes(INDEX_VERSION));
    assert(data.subrange(12, 20) =~= bytes::u64_bytes(count));
    assert(data.subrange(20, 28) =~= bytes::u64_bytes(nodes_count));
    bytes::law_u32_reads_back(data, 8, INDEX_VERSION);
    bytes::law_u64_reads_back(data, 12, count);
    bytes::law_u64_reads_back(data, 20, nodes_count);
    assert(bytes::is_piece(bytes::flat(256, f), k, 80, f(k)));
    assert(data.subrange(28 + 80 * k, 28 + 80 * k + 80) =~= f(k));
    lemma_entry_reads_back(data, 28 + 80 * k, partitions[k], node_counts[k]);
}

/// What a written node section says of a node.
pub proof fn lemma_written_node(nodes: Seq<KdNode>, i: int)
    requires
        0 <= i < nodes.len(),
    ensures
        load::is_node_at(layout::nodes_bytes(nodes), i, nodes[i]),
{
    let g = |i: int| layout::node_bytes(nodes[i]);
    assert forall|i: int| 0 <= i < nodes.len() implies (#[trigger] g(i)).len() == 80 by {
        layout::lemma_node_len(nodes[i]);
    }
    bytes::lemma_flat(nodes.len(), g, 80);
    layout::lemma_nodes_len(nodes);
    assert(bytes::is_piece(layout::nodes_bytes(nodes), i, 80, g(i)));
    lemma_node_reads_back(layout::nodes_bytes(nodes), i, nodes[i]);
}

/// What a written vector section says of a record.
pub proof fn lemma_written_vector(records: Seq<BuildRecord>, i: int)
    requires
        0 <= i < records.len(),
    ensures
        layout::vectors_bytes(records).len() == 32 * records.len(),
        bytes::is_qvec_at(layout::vectors_bytes(records), 32 * i, records[i].qvec),
{
    let f = |i: int| bytes::qvec_bytes(records[i].qvec);
    assert forall|i: int| 0 <= i < records.len() implies (#[trigger] f(i)).len() == 32 by {
        bytes::lemma_qvec_bytes_len(records[i].qvec);
    }
    bytes::lemma_flat(records.len(), f, 32);
    assert(bytes::is_piece(layout::vectors_bytes(records), i, 32, f(i)));
    bytes::law_qvec_reads_back(layout::vectors_bytes(records), 32 * i, records[i].qvec);
}

/// The sections of a written index file are those that are written on their own.
pub proof fn lemma_written_sections(
    records: Seq<BuildRecord>,
    partitions: Seq<PartitionMeta>,
    node_counts: Seq<u32>,
    nodes: Seq<KdNode>,
)
    ensures
        ({
            let data = layout::index_file_bytes(records, partitions, node_counts, nodes);
            let m = nodes.len() as int;
            let n = records.len() as int;
            let no = layout::nodes_off();
            let ho = layout::hot4_off(m);
            let mo = layout::mid4_off(m, n);
            let co = layout::cold8_off(m, n);
            let lo = layout::labels_off(m, n);
            &&& data.subrange(128, 20_636) == layout::partitions_bytes(
                n as u64,
                m as u64,
                partitions,
                node_counts,
            )
            &&& data.subrange(no, no + m * 80) == layout::nodes_bytes(nodes)
            &&& data.subrange(ho, ho + n * 8) == layout::stage_bytes(records, HOT_DIMS@)
            &&& data.subrange(mo, mo + n * 8) == layout::stage_bytes(records, MID_DIMS@)
            &&& data.subrange(co, co + n * 16) == layout::stage_bytes(records, COLD_SIMD_DIMS@)
            &&& data.subrange(lo, lo + n) == layout::labels_bytes(records)
        }),
{
    lemma_sections(records, partitions, node_counts, nodes);
    layout::lemma_stage_len(records, HOT_DIMS@);
    layout::lemma_stage_len(records, MID_DIMS@);
    layout::lemma_stage_len(records, COLD_SIMD_DIMS@);
    assert(HOT_DIMS@.len() == 4 && MID_DIMS@.len() == 4 && COLD_SIMD_DIMS@.len() == 8);
}

/// How long a written index file is.
pub proof fn lemma_written_len(
    records: Seq<BuildRecord>,
    partitions: Seq<PartitionMeta>,
    node_counts: Seq<u32>,
    nodes: Seq<KdNode>,
)
    ensures
        layout::index_file_bytes(records, partitions, node_counts, nodes).len()
            == layout::total_len(nodes.len() as int, records.len() as int),
{
    lemma_sections(records, partitions, node_counts, nodes);
}

/// What a written partition section says of its nodes.
pub proof fn lemma_written_node_count(
    count: u64,
    nodes_count: u64,
    partitions: Seq<PartitionMeta>,
    node_counts: Seq<u32>,
    k: int,
)
    requires
        0 <= k < 256,
    ensures
        ({
            let data = layout::partitions_bytes(count, nodes_count, partitions, node_counts);
            &&& data.len() == 20_508
            &&& bytes::u32_at(data, 28 + 80 * k + 12) == node_counts[k]
        }),
{
    let data = layout::partitions_bytes(count, nodes_count, partitions, node_counts);
    let f = |k: int| layout::partition_entry(partitions[k], node_counts[k]);
    assert forall|i: int| 0 <= i < 256 implies (#[trigger] f(i)).len() == 80 by {
        layout::lemma_partition_entry_len(partitions[i], node_counts[i]);
    }
    bytes::lemma_flat(256, f, 80);
    layout::lemma_partitions_len(count, nodes_count, partitions, node_counts);
    let tail = bytes::flat(256, f);
    let head = layout::partitions_head(count, nodes_count);
    assert(head.len() == 28);
    assert(bytes::is_piece(tail, k, 80, f(k)));
    assert(data.subrange(28 + 80 * k, 28 + 80 * k + 80) =~= f(k));
    lemma_entry_node_count(data, 28 + 80 * k, partitions[k], node_counts[k]);
}

/// An index file that was written is accepted, and an index that was read from it holds the
/// records, partitions and nodes that were written.
pub proof fn law_index_file_reads_back(
    records: Seq<BuildRecord>,
    partitions: Seq<PartitionMeta>,
    node_counts: Seq<u32>,
    nodes: Seq<KdNode>,
    ix: Index,
)
    requires
        partitions.len() == 256,
        layout::total_len(nodes.len() as int, records.len() as int) <= u64::MAX,
        total_count(partitions, 256) == records.len(),
        forall|k: int| 0 <= k < 256 ==> (#[trigger] partitions[k])._pad == 0,
    ensures
        ({
            let data = layout::index_file_bytes(records, partitions, node_counts, nodes);
            &&& load::index_file_error(data) is None
            &&& load::holds_index_file(ix, data) ==> {
                &&& ix.count == records.len()
                &&& ix.vectors@ == records.map_values(|r: BuildRecord| r.qvec)
                &&& ix.labels@ == records.map_values(|r: BuildRecord| r.label)
                &&& ix.partitions@ == partitions
                &&& ix.nodes@ == nodes
            }
        }),
{
    let n = records.len() as int;
    let data = layout::index_file_bytes(records, partitions, node_counts, nodes);
    lemma_sections(records, partitions, node_counts, nodes);
    lemma_file_accepted(data, records, partitions, node_counts, nodes, ix);
    if load::holds_index_file(ix, data) {
        assert forall|i: int| 0 <= i < n implies #[trigger] ix.vectors@[i] == records[i].qvec by {
            lemma_file_vector(data, records, i, ix.vectors@[i]);
        }
        assert(ix.vectors@ =~= records.map_values(|r: BuildRecord| r.qvec));
        assert(ix.labels@ =~= records.map_values(|r: BuildRecord| r.label));
    }
}

/// Vectors that are written one behind the other are read back.
proof fn lemma_vectors_read_back(records: Seq<BuildRecord>, read: Seq<QVec>)
    requires
        load::are_vectors(layout::vectors_bytes(records), read),
    ensures
        read == records.map_values(|r: BuildRecord| r.qvec),
{
    let vectors = layout::vectors_bytes(records);
    let f = |i: int| bytes::qvec_bytes(records[i].qvec);
    lemma_vectors_len(records);
    assert forall|i: int| 0 <= i < records.len() implies #[trigger] read[i] == records[i].qvec by {
        assert(bytes::is_piece(vectors, i, 32, f(i))) by {
            assert forall|i: int| 0 <= i < records.len() implies (#[trigger] f(i)).len() == 32 by {
                bytes::lemma_qvec_bytes_len(records[i].qvec);
            }
            bytes::lemma_flat(records.len(), f, 32);
        }
        bytes::law_qvec_reads_back(vectors, 32 * i, records[i].qvec);
        lemma_qvec_at_unique(vectors, 32 * i, read[i], records[i].qvec);
    }
    assert(read =~= records.map_values(|r: BuildRecord| r.qvec));
}

proof fn lemma_vectors_len(records: Seq<BuildRecord>)
    ensures
        layout::vectors_bytes(records).len() == 32 * records.len(),
{
    let f = |i: int| bytes::qvec_bytes(records[i].qvec);
    assert forall|i: int| 0 <= i < records.len() implies (#[trigger] f(i)).len() == 32 by {
        bytes::lemma_qvec_bytes_len(records[i].qvec);
    }
    bytes::lemma_flat(records.len(), f, 32);
}

/// The files of a split index that were written are accepted, and an index that was read
/// from them holds the records, partitions and nodes that were written.
pub proof fn law_split_index_reads_back(
    records: Seq<BuildRecord>,
    partitions: Seq<PartitionMeta>,
    node_counts: Seq<u32>,
    nodes: Seq<KdNode>,
    ix: Index,
)
    requires
        partitions.len() == 256,
        records.len() <= u64::MAX,
        nodes.len() <= u64::MAX,
        total_count(partitions, 256) == records.len(),
        forall|k: int| 0 <= k < 256 ==> (#[trigger] partitions[k])._pad == 0,
    ensures
        ({
            let vectors = layout::vectors_bytes(records);
            let labels = layout::labels_bytes(records);
            let trees = Some(
                (
                    layout::partitions_bytes(
                        records.len() as u64,
                        nodes.len() as u64,
                        partitions,
                        node_counts,
                    ),
                    layout::nodes_bytes(nodes),
                ),
            );
            &&& load::split_index_error(vectors, labels, trees) is None
            &&& load::holds_split_index(ix, vectors, labels, trees) ==> {
                &&& ix.count == records.len()
                &&& ix.vectors@ == records.map_values(|r: BuildRecord| r.qvec)
                &&& ix.labels@ == records.map_values(|r: BuildRecord| r.label)
                &&& ix.partitions@ == partitions
                &&& ix.nodes@ == nodes
            }
        }),
{
    let vectors = layout::vectors_bytes(records);
    let labels = layout::labels_bytes(records);
    lemma_vectors_len(records);
    law_partition_files_read_back(
        records.len() as u64,
        partitions,
        node_counts,
        nodes,
        ix.partitions@,
        ix.nodes@,
    );
    if load::are_vectors(vectors, ix.vectors@) {
        lemma_vectors_read_back(records, ix.vectors@);
        if ix.labels@ == labels {
            assert(ix.labels@ =~= records.map_values(|r: BuildRecord| r.label));
        }
    }
}

proof fn lemma_built_counts(built: Built, entries: Seq<BuildRecord>, k: int)
    requires
        built.built_from(entries),
        0 <= k <= 256,
    ensures
        total_count(built.partitions@, k) == builder::count_below(entries, k),
    decreases k,
{
    if k > 0 {
        lemma_built_counts(built, entries, k - 1);
        assert(builder::partition_built(
            entries,
            built.records@,
            built.partitions@[k - 1],
            built.partition_node_counts@[k - 1],
            built.nodes@,
            k - 1,
        ));
    }
}

proof fn lemma_built_pads(built: Built, entries: Seq<BuildRecord>)
    requires
        built.built_from(entries),
    ensures
        forall|k: int| 0 <= k < 256 ==> (#[trigger] built.partitions@[k])._pad == 0,
{
    assert forall|k: int| 0 <= k < 256 implies (#[trigger] built.partitions@[k])._pad == 0 by {
        assert(builder::partition_built(
            entries,
            built.records@,
            built.partitions@[k],
            built.partition_node_counts@[k],
            built.nodes@,
            k,
        ));
    }
}

/// What was built, written to an index file and read again is the index that was built, and
/// searching it is exact.
pub proof fn law_written_index_is_sound(built: Built, entries: Seq<BuildRecord>, ix: Index)
    requires
        built.built_from(entries),
        entries.len() <= u32::MAX,
        forall|i: int| 0 <= i < entries.len() ==> (#[trigger] entries[i]).proper(),
        layout::total_len(built.nodes@.len() as int, built.records@.len() as int) <= u64::MAX,
    ensures
        ({
            let data = layout::index_file_bytes(
                built.records@,
                built.partitions@,
                built.partition_node_counts@,
                built.nodes@,
            );
            &&& load::index_file_error(data) is None
            &&& load::holds_index_file(ix, data) ==> built.held_by(ix) && ix.sound()
        }),
{
    lemma_built_counts(built, entries, 256);
    lemma_built_pads(built, entries);
    law_index_file_reads_back(
        built.records@,
        built.partitions@,
        built.partition_node_counts@,
        built.nodes@,
        ix,
    );
    let data = layout::index_file_bytes(
        built.records@,
        built.partitions@,
        built.partition_node_counts@,
        built.nodes@,
    );
    if load::holds_index_file(ix, data) {
        assert forall|i: int| 0 <= i < built.records@.len() implies #[trigger] ix.vectors@[i]
            == built.records@[i].qvec by {
            assert(built.records@.map_values(|r: BuildRecord| r.qvec)[i] == built.records@[i].qvec);
        }
        assert forall|i: int| 0 <= i < built.records@.len() implies #[trigger] ix.labels@[i]
            == built.records@[i].label by {
            assert(built.records@.map_values(|r: BuildRecord| r.label)[i]
                == built.records@[i].label);
        }
        builder::law_built_index_is_sound(built, entries, ix);
    }
}

} // verus!
