//! Reading an index from bytes.
use crate::builder;
use crate::bytes;
use crate::bytes::{matches_at, read_i16, read_i32, read_qvec, read_u32, read_u64};
use crate::layout::{NODE_BYTES, PARTITION_BYTES};
use crate::index::{
    KdNode, PartitionMeta, QVec, COLD_SIMD_DIMS, DIM, FIXED_SCALE, HOT_DIMS, INDEX_FILE_MAGIC,
    INDEX_VERSION, MID_DIMS, PARTITIONS, PARTITIONS_MAGIC, RAW_INDEX_FILE_HEADER_LEN, STORE_DIM,
};
use crate::search::{Index, SearchLimits};
use vstd::prelude::*;

verus! {

/// Why bytes are not an index.
#[derive(Clone, Copy, PartialEq, Eq, Structural, Debug)]
pub enum IndexError {
    /// The vector file does not hold one vector for each label.
    VectorsSizeMismatch,
    /// The partition section ends before its counts.
    PartitionsTooSmall,
    /// The partition section does not start with its magic bytes.
    BadPartitionsMagic,
    /// The version is not the one that this library reads.
    UnsupportedVersion,
    /// The partition section counts other records than there are.
    CountMismatch,
    /// The partition section ends before its last entry.
    PartitionsTruncated,
    /// The partitions do not hold as many records as there are.
    PartitionCountMismatch,
    /// The node section does not hold the counted nodes.
    NodesSizeMismatch,
    /// The index file ends inside its header.
    FileTooSmall,
    /// The index file does not start with its magic bytes.
    BadFileMagic,
    /// The index file was made for other dimensions.
    DimensionMismatch,
    /// The index file was made for another scale.
    ScaleMismatch,
    /// The index file is not as long as it says.
    FileSizeMismatch,
    /// A section reaches beyond the end of the index file.
    SectionOutOfBounds,
}

/// Partition `k` as the partition section `data` has it.
pub open spec fn is_partition_at(data: Seq<u8>, k: int, p: PartitionMeta) -> bool {
    let at = 28 + 80 * k;
    &&& p.start == bytes::u32_at(data, at)
    &&& p.count == bytes::u32_at(data, at + 4)
    &&& p.root == bytes::i32_at(data, at + 8)
    &&& p._pad == 0
    &&& bytes::is_qvec_at(data, at + 16, p.bbox_min)
    &&& bytes::is_qvec_at(data, at + 48, p.bbox_max)
}

/// Node `i` as the node section `data` has it.
pub open spec fn is_node_at(data: Seq<u8>, i: int, node: KdNode) -> bool {
    let at = 80 * i;
    &&& bytes::is_qvec_at(data, at, node.bbox_min)
    &&& bytes::is_qvec_at(data, at + 32, node.bbox_max)
    &&& node.left == bytes::i32_at(data, at + 64)
    &&& node.right == bytes::i32_at(data, at + 68)
    &&& node.start == bytes::u32_at(data, at + 72)
    &&& node.count == bytes::u32_at(data, at + 76)
}

/// The records that the first `k` partitions hold.
pub open spec fn counted(data: Seq<u8>, k: int) -> int
    decreases k,
{
    if k <= 0 {
        0
    } else {
        counted(data, k - 1) + bytes::u32_at(data, 28 + 80 * (k - 1) + 4)
    }
}

/// The partitions of the section `data`.
pub open spec fn are_partitions(data: Seq<u8>, partitions: Seq<PartitionMeta>) -> bool {
    &&& partitions.len() == 256
    &&& forall|k: int| 0 <= k < 256 ==> is_partition_at(data, k, #[trigger] partitions[k])
}

/// The nodes of the section `data`.
pub open spec fn are_nodes(data: Seq<u8>, nodes: Seq<KdNode>) -> bool {
    &&& data.len() == nodes.len() * NODE_BYTES
    &&& forall|i: int| 0 <= i < nodes.len() ==> is_node_at(data, i, #[trigger] nodes[i])
}

/// What is wrong with a partition section and a node section for `count` records.
pub open spec fn partition_files_error(
    pdata: Seq<u8>,
    ndata: Seq<u8>,
    count: int,
) -> Option<IndexError> {
    if pdata.len() < 24 {
        Some(IndexError::PartitionsTooSmall)
    } else if !bytes::holds_at(pdata, 0, PARTITIONS_MAGIC@) {
        Some(IndexError::BadPartitionsMagic)
    } else if bytes::u32_at(pdata, 8) != INDEX_VERSION {
        Some(IndexError::UnsupportedVersion)
    } else if bytes::u64_at(pdata, 12) != count {
        Some(IndexError::CountMismatch)
    } else if pdata.len() < PARTITION_BYTES {
        Some(IndexError::PartitionsTruncated)
    } else if counted(pdata, 256) != count {
        Some(IndexError::PartitionCountMismatch)
    } else if ndata.len() != bytes::u64_at(pdata, 20) * NODE_BYTES {
        Some(IndexError::NodesSizeMismatch)
    } else {
        None
    }
}

fn read_node(data: &[u8], pos: &mut usize, Ghost(i): Ghost<int>) -> (r: KdNode)
    requires
        *old(pos) == 80 * i,
        80 * i + 80 <= data@.len(),
    ensures
        *final(pos) == *old(pos) + 80,
        is_node_at(data@, i, r),
{
    let bbox_min: QVec = read_qvec(data, pos);
    let bbox_max: QVec = read_qvec(data, pos);
    let left: i32 = read_i32(data, pos);
    let right: i32 = read_i32(data, pos);
    let start: u32 = read_u32(data, pos);
    let count: u32 = read_u32(data, pos);
    KdNode { bbox_min, bbox_max, left, right, start, count }
}

fn read_partition(data: &[u8], pos: &mut usize, Ghost(k): Ghost<int>) -> (r: PartitionMeta)
    requires
        *old(pos) == 28 + 80 * k,
        28 + 80 * k + 80 <= data@.len(),
    ensures
        *final(pos) == *old(pos) + 80,
        is_partition_at(data@, k, r),
{
    let start: u32 = read_u32(data, pos);
    let count: u32 = read_u32(data, pos);
    let root: i32 = read_i32(data, pos);
    let _nodes_count: u32 = read_u32(data, pos);
    let bbox_min: QVec = read_qvec(data, pos);
    let bbox_max: QVec = read_qvec(data, pos);
    PartitionMeta { bbox_min, bbox_max, start, count, root, _pad: 0 }
}

/// Reads the partitions and the nodes of an index of `count` records.
pub fn parse_partition_files(pdata: &[u8], ndata: &[u8], count: usize) -> (r: Result<
    (Vec<PartitionMeta>, Vec<KdNode>),
    IndexError,
>)
    ensures
        match r {
            Ok((partitions, nodes)) => {
                &&& partition_files_error(pdata@, ndata@, count as int) is None
                &&& are_partitions(pdata@, partitions@)
                &&& are_nodes(ndata@, nodes@)
            },
            Err(e) => partition_files_error(pdata@, ndata@, count as int) == Some(e),
        },
{
    if pdata.len() < 24 {
        return Err(IndexError::PartitionsTooSmall);
    }
    if !matches_at(pdata, 0, PARTITIONS_MAGIC.as_slice()) {
        return Err(IndexError::BadPartitionsMagic);
    }
    let mut pos: usize = 8;
    if read_u32(pdata, &mut pos) != INDEX_VERSION {
        return Err(IndexError::UnsupportedVersion);
    }
    if read_u64(pdata, &mut pos) != count as u64 {
        return Err(IndexError::CountMismatch);
    }
    if pdata.len() < PARTITION_BYTES {
        return Err(IndexError::PartitionsTruncated);
    }
    let stored_nodes: u64 = read_u64(pdata, &mut pos);

    let mut partitions: Vec<PartitionMeta> = Vec::new();
    let mut total: u64 = 0;
    let mut i: usize = 0;
    while i < PARTITIONS
        invariant
            i <= 256,
            pdata@.len() >= PARTITION_BYTES,
            pos == 28 + 80 * i,
            partitions@.len() == i,
            total == counted(pdata@, i as int),
            total <= i * 0xffff_ffff,
            forall|k: int| 0 <= k < i ==> is_partition_at(pdata@, k, #[trigger] partitions@[k]),
        decreases 256 - i,
    {
        let p: PartitionMeta = read_partition(pdata, &mut pos, Ghost(i as int));
        total = total + p.count as u64;
        partitions.push(p);
        i = i + 1;
    }
    if total != count as u64 {
        return Err(IndexError::PartitionCountMismatch);
    }

    let len: usize = ndata.len();
    if len % NODE_BYTES != 0 || (len / NODE_BYTES) as u64 != stored_nodes {
        return Err(IndexError::NodesSizeMismatch);
    }
    let mut nodes: Vec<KdNode> = Vec::new();
    let mut npos: usize = 0;
    while npos < len
        invariant
            len == ndata@.len(),
            len % NODE_BYTES == 0,
            npos <= len,
            npos == 80 * nodes@.len(),
            forall|i: int| 0 <= i < nodes@.len() ==> is_node_at(ndata@, i, #[trigger] nodes@[i]),
        decreases len - npos,
    {
        let ghost i = nodes@.len() as int;
        nodes.push(read_node(ndata, &mut npos, Ghost(i)));
    }
    Ok((partitions, nodes))
}

/// `lo` and `hi` are the least and the greatest coordinate of the vectors in dimension `d`.
pub open spec fn extremes_in(vectors: Seq<QVec>, d: int, lo: int, hi: int) -> bool {
    &&& forall|i: int| 0 <= i < vectors.len() ==> lo <= (#[trigger] vectors[i]).at(d) <= hi
    &&& exists|i: int| 0 <= i < vectors.len() && (#[trigger] vectors[i]).at(d) == lo
    &&& exists|i: int| 0 <= i < vectors.len() && (#[trigger] vectors[i]).at(d) == hi
}

/// `lo` and `hi` are the corners of the smallest box around the vectors; both are zero where
/// there are none.
pub open spec fn smallest_box(vectors: Seq<QVec>, lo: QVec, hi: QVec) -> bool {
    if vectors.len() == 0 {
        forall|d: int| 0 <= d < 16 ==> lo.at(d) == 0 && #[trigger] hi.at(d) == 0
    } else {
        forall|d: int| 0 <= d < 16 ==> #[trigger] extremes_in(vectors, d, lo.at(d), hi.at(d))
    }
}

proof fn lemma_extremes_push(vectors: Seq<QVec>, v: QVec, d: int, lo: int, hi: int)
    requires
        extremes_in(vectors, d, lo, hi),
    ensures
        extremes_in(
            vectors.push(v),
            d,
            if v.at(d) < lo {
                v.at(d)
            } else {
                lo
            },
            if v.at(d) > hi {
                v.at(d)
            } else {
                hi
            },
        ),
{
    let all = vectors.push(v);
    let a = choose|i: int| 0 <= i < vectors.len() && (#[trigger] vectors[i]).at(d) == lo;
    let b = choose|i: int| 0 <= i < vectors.len() && (#[trigger] vectors[i]).at(d) == hi;
    assert(all[a] == vectors[a]);
    assert(all[b] == vectors[b]);
    assert(all[vectors.len() as int] == v);
}

/// The corners of the smallest box around the vectors.
pub fn bbox_of(vectors: &[QVec]) -> (r: (QVec, QVec))
    ensures
        smallest_box(vectors@, r.0, r.1),
{
    if vectors.len() == 0 {
        return (QVec::zero(), QVec::zero());
    }
    let mut min: QVec = vectors[0];
    let mut max: QVec = vectors[0];
    proof {
        let one = vectors@.take(1);
        assert forall|d: int| 0 <= d < 16 implies #[trigger] extremes_in(
            one,
            d,
            min.at(d),
            max.at(d),
        ) by {
            assert(one[0] == min);
        }
    }
    let mut i: usize = 1;
    while i < vectors.len()
        invariant
            1 <= i <= vectors@.len(),
            forall|d: int|
                0 <= d < 16 ==> #[trigger] extremes_in(
                    vectors@.take(i as int),
                    d,
                    min.at(d),
                    max.at(d),
                ),
        decreases vectors@.len() - i,
    {
        let v: QVec = vectors[i];
        let ghost before = vectors@.take(i as int);
        let ghost after = vectors@.take(i + 1);
        let ghost min0 = min;
        let ghost max0 = max;
        assert(after =~= before.push(v));
        let mut d: usize = 0;
        while d < STORE_DIM
            invariant
                d <= 16,
                after == before.push(v),
                forall|e: int|
                    0 <= e < 16 ==> #[trigger] extremes_in(before, e, min0.at(e), max0.at(e)),
                forall|e: int| d <= e < 16 ==> min.at(e) == min0.at(e),
                forall|e: int| d <= e < 16 ==> max.at(e) == max0.at(e),
                forall|e: int|
                    0 <= e < d ==> #[trigger] extremes_in(after, e, min.at(e), max.at(e)),
            decreases 16 - d,
        {
            let ghost min1 = min;
            let ghost max1 = max;
            proof {
                assert(extremes_in(before, d as int, min0.at(d as int), max0.at(d as int)));
                lemma_extremes_push(before, v, d as int, min0.at(d as int), max0.at(d as int));
            }
            let x: i16 = v.0[d];
            if x < min.0[d] {
                min.0[d] = x;
            }
            if x > max.0[d] {
                max.0[d] = x;
            }
            assert forall|e: int| 0 <= e <= d implies #[trigger] extremes_in(
                after,
                e,
                min.at(e),
                max.at(e),
            ) by {
                if e < d {
                    assert(extremes_in(after, e, min1.at(e), max1.at(e)));
                }
            }
            d = d + 1;
        }
        i = i + 1;
    }
    assert(vectors@.take(i as int) =~= vectors@);
    (min, max)
}

/// The vectors of the section `data`.
pub open spec fn are_vectors(data: Seq<u8>, vectors: Seq<QVec>) -> bool {
    &&& data.len() == vectors.len() * 32
    &&& forall|i: int|
        0 <= i < vectors.len() ==> bytes::is_qvec_at(data, 32 * i, #[trigger] vectors[i])
}

/// All vectors in the first partition, without a tree.
pub open spec fn is_unpartitioned(ix: Index) -> bool {
    let p = ix.partitions@[0];
    &&& ix.nodes@.len() == 0
    &&& ix.partitions@.len() == 256
    &&& p.start == 0
    &&& p.count == ix.count as int % 0x1_0000_0000
    &&& p.root == -1
    &&& p._pad == 0
    &&& smallest_box(ix.vectors@, p.bbox_min, p.bbox_max)
    &&& forall|k: int|
        1 <= k < 256 ==> builder::is_empty_partition(#[trigger] ix.partitions@[k])
}

fn unpartitioned(vectors: &[QVec]) -> (r: Vec<PartitionMeta>)
    ensures
        r@.len() == 256,
        r@[0].start == 0,
        r@[0].count == vectors@.len() as int % 0x1_0000_0000,
        r@[0].root == -1,
        r@[0]._pad == 0,
        smallest_box(vectors@, r@[0].bbox_min, r@[0].bbox_max),
        forall|k: int| 1 <= k < 256 ==> builder::is_empty_partition(#[trigger] r@[k]),
{
    let (bbox_min, bbox_max): (QVec, QVec) = bbox_of(vectors);
    let count: u32 = (vectors.len() as u64 % 0x1_0000_0000) as u32;
    let mut partitions: Vec<PartitionMeta> = Vec::new();
    partitions.push(PartitionMeta { bbox_min, bbox_max, start: 0, count, root: -1, _pad: 0 });
    let ghost first = partitions@[0];
    while partitions.len() < PARTITIONS
        invariant
            1 <= partitions@.len() <= 256,
            partitions@[0] == first,
            forall|k: int|
                1 <= k < partitions@.len() ==> builder::is_empty_partition(
                    #[trigger] partitions@[k],
                ),
        decreases 256 - partitions@.len(),
    {
        partitions.push(PartitionMeta::empty());
    }
    partitions
}

fn read_vectors(data: &[u8]) -> (r: Vec<QVec>)
    requires
        data@.len() % 32 == 0,
    ensures
        are_vectors(data@, r@),
{
    let mut vectors: Vec<QVec> = Vec::new();
    let len: usize = data.len();
    let mut pos: usize = 0;
    while pos < len
        invariant
            len == data@.len(),
            len % 32 == 0,
            pos <= len,
            pos == 32 * vectors@.len(),
            forall|i: int|
                0 <= i < vectors@.len() ==> bytes::is_qvec_at(
                    data@,
                    32 * i,
                    #[trigger] vectors@[i],
                ),
        decreases len - pos,
    {
        vectors.push(read_qvec(data, &mut pos));
    }
    vectors
}

/// What is wrong with a split index: its vectors and labels, and the partitions and nodes
/// where it has them.
pub open spec fn split_index_error(
    vectors: Seq<u8>,
    labels: Seq<u8>,
    trees: Option<(Seq<u8>, Seq<u8>)>,
) -> Option<IndexError> {
    if vectors.len() != labels.len() * 32 {
        Some(IndexError::VectorsSizeMismatch)
    } else {
        match trees {
            Some((pdata, ndata)) => partition_files_error(pdata, ndata, labels.len() as int),
            None => None,
        }
    }
}

/// `ix` holds what the files of a split index say.
pub open spec fn holds_split_index(
    ix: Index,
    vectors: Seq<u8>,
    labels: Seq<u8>,
    trees: Option<(Seq<u8>, Seq<u8>)>,
) -> bool {
    &&& ix.count == labels.len()
    &&& ix.labels@ == labels
    &&& are_vectors(vectors, ix.vectors@)
    &&& match trees {
        Some((pdata, ndata)) => {
            &&& are_partitions(pdata, ix.partitions@)
            &&& are_nodes(ndata, ix.nodes@)
        },
        None => is_unpartitioned(ix),
    }
}

/// The bytes of the trees, if there are any.
pub open spec fn tree_bytes(trees: Option<(&[u8], &[u8])>) -> Option<(Seq<u8>, Seq<u8>)> {
    match trees {
        Some((pdata, ndata)) => Some((pdata@, ndata@)),
        None => None,
    }
}

impl Index {
    /// Reads a split index: vectors, labels, and where they exist partitions and nodes.
    pub fn load(
        vectors: &[u8],
        labels: &[u8],
        trees: Option<(&[u8], &[u8])>,
        limits: SearchLimits,
    ) -> (r: Result<Index, IndexError>)
        ensures
            match r {
                Ok(ix) => {
                    &&& split_index_error(vectors@, labels@, tree_bytes(trees)) is None
                    &&& holds_split_index(ix, vectors@, labels@, tree_bytes(trees))
                    &&& ix.limits == limits
                },
                Err(e) => split_index_error(vectors@, labels@, tree_bytes(trees)) == Some(e),
            },
    {
        let count: usize = labels.len();
        if vectors.len() % 32 != 0 || vectors.len() / 32 != count {
            return Err(IndexError::VectorsSizeMismatch);
        }
        let vectors: Vec<QVec> = read_vectors(vectors);
        let (partitions, nodes): (Vec<PartitionMeta>, Vec<KdNode>) = match trees {
            Some((pdata, ndata)) => match parse_partition_files(pdata, ndata, count) {
                Ok(parsed) => parsed,
                Err(e) => {
                    return Err(e);
                },
            },
            None => (unpartitioned(vectors.as_slice()), Vec::new()),
        };
        let mut own: Vec<u8> = Vec::new();
        bytes::write_bytes(&mut own, labels);
        assert(own@ =~= labels@);
        Ok(Index { vectors, labels: own, count, partitions, nodes, limits })
    }
}

/// Number `i` in the header of an index file.
pub open spec fn word_at(data: Seq<u8>, i: int) -> int {
    bytes::u64_at(data, 24 + 8 * i)
}

/// The sections of an index file lie inside it.
pub open spec fn sections_fit(data: Seq<u8>) -> bool {
    let n = word_at(data, 0);
    let len = data.len();
    &&& word_at(data, 2) + PARTITION_BYTES <= len
    &&& word_at(data, 3) + word_at(data, 1) * NODE_BYTES <= len
    &&& word_at(data, 4) + n * 8 <= len
    &&& word_at(data, 5) + n * 8 <= len
    &&& word_at(data, 6) + n * 16 <= len
    &&& word_at(data, 8) + n <= len
}

/// The partition section of an index file.
pub open spec fn partition_section(data: Seq<u8>) -> Seq<u8> {
    data.subrange(word_at(data, 2), word_at(data, 2) + PARTITION_BYTES)
}

/// The node section of an index file.
pub open spec fn node_section(data: Seq<u8>) -> Seq<u8> {
    data.subrange(word_at(data, 3), word_at(data, 3) + word_at(data, 1) * NODE_BYTES)
}

/// The label section of an index file.
pub open spec fn label_section(data: Seq<u8>) -> Seq<u8> {
    data.subrange(word_at(data, 8), word_at(data, 8) + word_at(data, 0))
}

/// What is wrong with an index file.
pub open spec fn index_file_error(data: Seq<u8>) -> Option<IndexError> {
    if data.len() < RAW_INDEX_FILE_HEADER_LEN {
        Some(IndexError::FileTooSmall)
    } else if !bytes::holds_at(data, 0, INDEX_FILE_MAGIC@) {
        Some(IndexError::BadFileMagic)
    } else if bytes::u32_at(data, 8) != INDEX_VERSION {
        Some(IndexError::UnsupportedVersion)
    } else if bytes::u32_at(data, 12) != DIM || bytes::u32_at(data, 16) != STORE_DIM {
        Some(IndexError::DimensionMismatch)
    } else if bytes::u32_at(data, 20) != FIXED_SCALE {
        Some(IndexError::ScaleMismatch)
    } else if word_at(data, 9) != data.len() {
        Some(IndexError::FileSizeMismatch)
    } else if !sections_fit(data) {
        Some(IndexError::SectionOutOfBounds)
    } else {
        partition_files_error(partition_section(data), node_section(data), word_at(data, 0))
    }
}

/// `q` has the coordinates of record `i` in the dimensions of one stage.
pub open spec fn is_staged_at(
    data: Seq<u8>,
    off: int,
    dims: Seq<usize>,
    i: int,
    q: QVec,
) -> bool {
    forall|j: int|
        0 <= j < dims.len() ==> q.at(#[trigger] dims[j] as int) == bytes::i16_at(
            data,
            off + i * (dims.len() * 2) + 2 * j,
        )
}

/// `q` is vector `i` of an index file.
pub open spec fn is_vector_at(data: Seq<u8>, i: int, q: QVec) -> bool {
    &&& is_staged_at(data, word_at(data, 4), HOT_DIMS@, i, q)
    &&& is_staged_at(data, word_at(data, 5), MID_DIMS@, i, q)
    &&& is_staged_at(data, word_at(data, 6), COLD_SIMD_DIMS@, i, q)
}

/// `ix` holds what an index file says.
pub open spec fn holds_index_file(ix: Index, data: Seq<u8>) -> bool {
    &&& ix.count == word_at(data, 0)
    &&& ix.labels@ == label_section(data)
    &&& are_partitions(partition_section(data), ix.partitions@)
    &&& are_nodes(node_section(data), ix.nodes@)
    &&& ix.vectors@.len() == ix.count
    &&& forall|i: int| 0 <= i < ix.count ==> is_vector_at(data, i, #[trigger] ix.vectors@[i])
}

/// `count` items of `size` bytes at `off` end within `len` bytes.
fn fits(off: u64, count: u64, size: u64, len: usize) -> (r: bool)
    requires
        size <= 0xffff,
    ensures
        r == (off + count * size <= len),
{
    assert(count * size <= 0xffff_ffff_ffff_ffff * 0xffff) by (nonlinear_arith)
        requires
            0 <= count <= 0xffff_ffff_ffff_ffff,
            0 <= size <= 0xffff,
    ;
    off as u128 + count as u128 * size as u128 <= len as u128
}

fn read_stage(data: &[u8], off: usize, dims: &[usize], i: usize, q: &mut QVec)
    requires
        dims@.len() <= 8,
        off + i * (dims@.len() * 2) + dims@.len() * 2 <= data@.len(),
        forall|j: int| 0 <= j < dims@.len() ==> (#[trigger] dims@[j]) < STORE_DIM,
        forall|j: int, k: int| 0 <= j < k < dims@.len() ==> dims@[j] != dims@[k],
    ensures
        is_staged_at(data@, off as int, dims@, i as int, *final(q)),
        forall|d: int|
            0 <= d < 16 && !dims@.contains(d as usize) ==> #[trigger] final(q).at(d) == old(q).at(
                d,
            ),
{
    let len: usize = data.len();
    let ghost before = *q;
    let at: usize = off + i * (dims.len() * 2);
    let mut j: usize = 0;
    while j < dims.len()
        invariant
            j <= dims@.len(),
            dims@.len() <= 8,
            len == data@.len(),
            at + dims@.len() * 2 <= len,
            at == off + i * (dims@.len() * 2),
            forall|j: int| 0 <= j < dims@.len() ==> (#[trigger] dims@[j]) < STORE_DIM,
            forall|j: int, k: int| 0 <= j < k < dims@.len() ==> dims@[j] != dims@[k],
            forall|k: int|
                0 <= k < j ==> q.at(#[trigger] dims@[k] as int) == bytes::i16_at(
                    data@,
                    at + 2 * k,
                ),
            forall|d: int|
                0 <= d < 16 && !dims@.contains(d as usize) ==> #[trigger] q.at(d) == before.at(d),
        decreases dims@.len() - j,
    {
        let ghost here = *q;
        let d: usize = dims[j];
        q.0[d] = read_i16(data, at + 2 * j);
        assert forall|k: int| 0 <= k < j + 1 implies q.at(#[trigger] dims@[k] as int)
            == bytes::i16_at(data@, at + 2 * k) by {
            if k < j {
                assert(dims@[k] != dims@[j as int]);
                assert(here.at(dims@[k] as int) == bytes::i16_at(data@, at + 2 * k));
            }
        }
        assert forall|e: int| 0 <= e < 16 && !dims@.contains(e as usize) implies #[trigger] q.at(e)
            == before.at(e) by {
            assert(dims@.contains(dims@[j as int]));
            assert(here.at(e) == before.at(e));
        }
        j = j + 1;
    }
}

/// Reads vector `i` from its three stages.
fn read_staged_vector(
    data: &[u8],
    hot4_off: usize,
    mid4_off: usize,
    cold8_off: usize,
    i: usize,
) -> (q: QVec)
    requires
        hot4_off + (i + 1) * 8 <= data@.len(),
        mid4_off + (i + 1) * 8 <= data@.len(),
        cold8_off + (i + 1) * 16 <= data@.len(),
    ensures
        is_staged_at(data@, hot4_off as int, HOT_DIMS@, i as int, q),
        is_staged_at(data@, mid4_off as int, MID_DIMS@, i as int, q),
        is_staged_at(data@, cold8_off as int, COLD_SIMD_DIMS@, i as int, q),
{
    let mut q: QVec = QVec::zero();
    read_stage(data, hot4_off, HOT_DIMS.as_slice(), i, &mut q);
    let ghost hot = q;
    read_stage(data, mid4_off, MID_DIMS.as_slice(), i, &mut q);
    let ghost mid = q;
    assert(is_staged_at(data@, hot4_off as int, HOT_DIMS@, i as int, q)) by {
        assert forall|j: int| 0 <= j < 4 implies q.at(#[trigger] HOT_DIMS@[j] as int)
            == bytes::i16_at(data@, hot4_off + i * 8 + 2 * j) by {
            assert(!MID_DIMS@.contains(HOT_DIMS@[j]));
            assert(q.at(HOT_DIMS@[j] as int) == hot.at(HOT_DIMS@[j] as int));
        }
    }
    read_stage(data, cold8_off, COLD_SIMD_DIMS.as_slice(), i, &mut q);
    assert(is_staged_at(data@, hot4_off as int, HOT_DIMS@, i as int, q)) by {
        assert forall|j: int| 0 <= j < 4 implies q.at(#[trigger] HOT_DIMS@[j] as int)
            == bytes::i16_at(data@, hot4_off + i * 8 + 2 * j) by {
            assert(!COLD_SIMD_DIMS@.contains(HOT_DIMS@[j]));
            assert(q.at(HOT_DIMS@[j] as int) == mid.at(HOT_DIMS@[j] as int));
        }
    }
    assert(is_staged_at(data@, mid4_off as int, MID_DIMS@, i as int, q)) by {
        assert forall|j: int| 0 <= j < 4 implies q.at(#[trigger] MID_DIMS@[j] as int)
            == bytes::i16_at(data@, mid4_off + i * 8 + 2 * j) by {
            assert(!COLD_SIMD_DIMS@.contains(MID_DIMS@[j]));
            assert(q.at(MID_DIMS@[j] as int) == mid.at(MID_DIMS@[j] as int));
        }
    }
    q
}

/// The numbers in the header of an index file.
struct Header {
    words: [u64; 10],
}

fn read_header(data: &[u8]) -> (r: Result<Header, IndexError>)
    ensures
        match r {
            Ok(h) => {
                &&& index_file_error(data@) == partition_files_error(
                    partition_section(data@),
                    node_section(data@),
                    word_at(data@, 0),
                )
                &&& data@.len() >= RAW_INDEX_FILE_HEADER_LEN
                &&& sections_fit(data@)
                &&& forall|i: int| 0 <= i < 10 ==> #[trigger] h.words@[i] == word_at(data@, i)
            },
            Err(e) => index_file_error(data@) == Some(e),
        },
{
    if data.len() < RAW_INDEX_FILE_HEADER_LEN {
        return Err(IndexError::FileTooSmall);
    }
    if !matches_at(data, 0, INDEX_FILE_MAGIC.as_slice()) {
        return Err(IndexError::BadFileMagic);
    }
    let mut pos: usize = 8;
    if read_u32(data, &mut pos) != INDEX_VERSION {
        return Err(IndexError::UnsupportedVersion);
    }
    let dim: u32 = read_u32(data, &mut pos);
    let store_dim: u32 = read_u32(data, &mut pos);
    if dim != DIM as u32 || store_dim != STORE_DIM as u32 {
        return Err(IndexError::DimensionMismatch);
    }
    if read_u32(data, &mut pos) != FIXED_SCALE as u32 {
        return Err(IndexError::ScaleMismatch);
    }
    let mut words: [u64; 10] = [0u64; 10];
    let mut i: usize = 0;
    while i < 10
        invariant
            i <= 10,
            pos == 24 + 8 * i,
            data@.len() >= 104,
            forall|j: int| 0 <= j < i ==> #[trigger] words@[j] == word_at(data@, j),
        decreases 10 - i,
    {
        words[i] = read_u64(data, &mut pos);
        i = i + 1;
    }
    let len: usize = data.len();
    let ghost word = |i: int| word_at(data@, i);
    assert(forall|i: int| 0 <= i < 10 ==> words@[i] == #[trigger] word(i));
    assert(word(0) == words@[0] && word(1) == words@[1] && word(2) == words@[2] && word(3)
        == words@[3] && word(4) == words@[4] && word(5) == words@[5] && word(6) == words@[6]
        && word(8) == words@[8] && word(9) == words@[9]);
    if words[9] != len as u64 {
        return Err(IndexError::FileSizeMismatch);
    }
    let n: u64 = words[0];
    let inside: bool = fits(words[2], 1, PARTITION_BYTES as u64, len) && fits(
        words[3],
        words[1],
        NODE_BYTES as u64,
        len,
    ) && fits(words[4], n, 8, len) && fits(words[5], n, 8, len) && fits(words[6], n, 16, len)
        && fits(words[8], n, 1, len);
    if !inside {
        return Err(IndexError::SectionOutOfBounds);
    }
    Ok(Header { words })
}

impl Index {
    /// Reads an index file.
    pub fn load_file(data: &[u8], limits: SearchLimits) -> (r: Result<Index, IndexError>)
        ensures
            match r {
                Ok(ix) => {
                    &&& index_file_error(data@) is None
                    &&& holds_index_file(ix, data@)
                    &&& ix.limits == limits
                },
                Err(e) => index_file_error(data@) == Some(e),
            },
    {
        let h: Header = match read_header(data) {
            Ok(h) => h,
            Err(e) => {
                return Err(e);
            },
        };
        let len: usize = data.len();
        let ghost words = h.words@;
        assert(words[0] == word_at(data@, 0) && words[1] == word_at(data@, 1) && words[2]
            == word_at(data@, 2) && words[3] == word_at(data@, 3) && words[4] == word_at(data@, 4)
            && words[5] == word_at(data@, 5) && words[6] == word_at(data@, 6) && words[8]
            == word_at(data@, 8));
        let count: usize = h.words[0] as usize;
        let partitions_off: usize = h.words[2] as usize;
        let nodes_off: usize = h.words[3] as usize;
        let nodes_end: usize = nodes_off + h.words[1] as usize * NODE_BYTES;
        let hot4_off: usize = h.words[4] as usize;
        let mid4_off: usize = h.words[5] as usize;
        let cold8_off: usize = h.words[6] as usize;
        let labels_off: usize = h.words[8] as usize;

        let pdata: &[u8] = &data[partitions_off..partitions_off + PARTITION_BYTES];
        let ndata: &[u8] = &data[nodes_off..nodes_end];
        let (partitions, nodes): (Vec<PartitionMeta>, Vec<KdNode>) = match parse_partition_files(
            pdata,
            ndata,
            count,
        ) {
            Ok(parsed) => parsed,
            Err(e) => {
                return Err(e);
            },
        };
        let mut vectors: Vec<QVec> = Vec::new();
        let mut i: usize = 0;
        while i < count
            invariant
                i <= count,
                vectors@.len() == i,
                hot4_off == word_at(data@, 4),
                mid4_off == word_at(data@, 5),
                cold8_off == word_at(data@, 6),
                hot4_off + count * 8 <= data@.len(),
                mid4_off + count * 8 <= data@.len(),
                cold8_off + count * 16 <= data@.len(),
                forall|j: int| 0 <= j < i ==> is_vector_at(data@, j, #[trigger] vectors@[j]),
            decreases count - i,
        {
            vectors.push(read_staged_vector(data, hot4_off, mid4_off, cold8_off, i));
            i = i + 1;
        }
        let mut labels: Vec<u8> = Vec::new();
        bytes::write_bytes(&mut labels, &data[labels_off..labels_off + count]);
        assert(labels@ =~= label_section(data@));
        Ok(Index { vectors, labels, count, partitions, nodes, limits })
    }
}

} // verus!
