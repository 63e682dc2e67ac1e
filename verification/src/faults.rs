//! Why an index is not loaded, and what is loaded without trees.
use crate::builder;
use crate::client::Client;
use crate::formats;
use crate::index::{KdNode, PartitionMeta};
use crate::load;
use crate::load::{parse_partition_files, IndexError};
use crate::search::{Index, SearchLimits, SearchStats};
use vstd::prelude::*;

verus! {

/// The trees have the fault that `e` names.
pub open spec fn trees_have(e: IndexError, pdata: Seq<u8>, ndata: Seq<u8>, count: int) -> bool {
    match e {
        IndexError::PartitionsTooSmall => pdata.len() < 24,
        IndexError::BadPartitionsMagic => pdata.take(8) != formats::partitions_mark(),
        IndexError::UnsupportedVersion => formats::little(pdata, 8, 4) != 5,
        IndexError::CountMismatch => formats::little(pdata, 12, 8) != count,
        IndexError::PartitionsTruncated => pdata.len() < 20_508,
        IndexError::PartitionCountMismatch => formats::counts_at(pdata, 28, 256) != count,
        IndexError::NodesSizeMismatch => ndata.len() != 80 * formats::little(pdata, 20, 8),
        _ => false,
    }
}

/// How early a fault of the trees is found.
pub open spec fn place_of(e: IndexError) -> int {
    match e {
        IndexError::PartitionsTooSmall => 0,
        IndexError::BadPartitionsMagic => 1,
        IndexError::UnsupportedVersion => 2,
        IndexError::CountMismatch => 3,
        IndexError::PartitionsTruncated => 4,
        IndexError::PartitionCountMismatch => 5,
        _ => 6,
    }
}

proof fn lemma_trees_have(pdata: Seq<u8>, ndata: Seq<u8>, count: int, f: IndexError)
    ensures
        load::partition_files_error(pdata, ndata, count) matches Some(e) ==> {
            &&& trees_have(e, pdata, ndata, count)
            &&& trees_have(f, pdata, ndata, count) ==> place_of(e) <= place_of(f)
        },
{
    assert(crate::index::PARTITIONS_MAGIC@ =~= formats::partitions_mark());
    if pdata.len() >= 8 {
        assert(pdata.take(8) =~= pdata.subrange(0, 8));
    }
    formats::lemma_little(pdata, 8);
    formats::lemma_little(pdata, 12);
    formats::lemma_little(pdata, 20);
    formats::lemma_counted(pdata, 256);
}

/// Trees are refused for a fault that they have, and for the first one where they have several.
pub proof fn law_trees_are_refused_for_their_first_fault(
    pdata: &[u8],
    ndata: &[u8],
    count: usize,
    r: Result<(Vec<PartitionMeta>, Vec<KdNode>), IndexError>,
    f: IndexError,
)
    requires
        call_ensures(parse_partition_files, (pdata, ndata, count), r),
    ensures
        r matches Err(e) ==> {
            &&& trees_have(e, pdata@, ndata@, count as int)
            &&& trees_have(f, pdata@, ndata@, count as int) ==> place_of(e) <= place_of(f)
        },
        r matches Ok((partitions, nodes)) ==> forall|k: int|
            0 <= k < 256 ==> (#[trigger] partitions@[k])._pad == 0,
{
    lemma_trees_have(pdata@, ndata@, count as int, f);
}

/// A split index is refused for the number of its vectors, or for what its trees are refused.
pub proof fn law_split_index_is_refused_for_its_fault(
    vectors: &[u8],
    labels: &[u8],
    trees: Option<(&[u8], &[u8])>,
    limits: SearchLimits,
    r: Result<Index, IndexError>,
    parsed: Result<(Vec<PartitionMeta>, Vec<KdNode>), IndexError>,
)
    requires
        call_ensures(Index::load, (vectors, labels, trees, limits), r),
        trees matches Some((p, n)) ==> call_ensures(
            parse_partition_files,
            (p, n, labels@.len() as usize),
            parsed,
        ),
        labels@.len() <= usize::MAX,
    ensures
        r == Err::<Index, IndexError>(IndexError::VectorsSizeMismatch) <==> vectors@.len() != 32
            * labels@.len(),
        vectors@.len() == 32 * labels@.len() && trees is Some ==> (r is Err <==> parsed is Err)
            && (r matches Err(e) ==> parsed == Err::<(Vec<PartitionMeta>, Vec<KdNode>), IndexError>(
            e,
        )),
        vectors@.len() == 32 * labels@.len() && trees is None ==> r is Ok,
{
    if trees is Some {
        let (p, n) = trees->0;
        lemma_trees_have(p@, n@, labels@.len() as int, IndexError::FileTooSmall);
    }
}

/// Without trees the first partition has all records and no tree, its box is that of all
/// vectors, and the other partitions are empty.
pub proof fn law_index_without_trees_is_one_partition(
    vectors: &[u8],
    labels: &[u8],
    limits: SearchLimits,
    r: Result<Index, IndexError>,
    d: int,
    i: int,
    k: int,
)
    requires
        call_ensures(Index::load, (vectors, labels, None, limits), r),
        r is Ok,
        0 <= d < 16,
        0 <= i < labels@.len() <= u32::MAX,
        1 <= k < 256,
    ensures
        ({
            let ix = r->Ok_0;
            let p = ix.partitions@[0];
            let q = ix.partitions@[k];
            &&& ix.partitions@.len() == 256 && ix.nodes@.len() == 0
            &&& p.start == 0 && p.count == labels@.len() && p.root == -1 && p._pad == 0
            &&& p.bbox_min.at(d) <= ix.vectors@[i].at(d) <= p.bbox_max.at(d)
            &&& exists|j: int|
                0 <= j < ix.count && (#[trigger] ix.vectors@[j]).at(d) == p.bbox_min.at(d)
            &&& exists|j: int|
                0 <= j < ix.count && (#[trigger] ix.vectors@[j]).at(d) == p.bbox_max.at(d)
            &&& q.start == 0 && q.count == 0 && q.root == -1 && q._pad == 0
            &&& q.bbox_min.at(d) == 0 && q.bbox_max.at(d) == 0
        }),
{
    let ix = r->Ok_0;
    let p = ix.partitions@[0];
    assert(load::extremes_in(ix.vectors@, d, p.bbox_min.at(d), p.bbox_max.at(d)));
    assert(builder::is_empty_partition(ix.partitions@[k]));
}

/// A section of the file does not end within it.
pub open spec fn a_section_is_cut(d: Seq<u8>) -> bool {
    let n = formats::head_word(d, 0);
    ||| formats::head_word(d, 2) + 20_508 > d.len()
    ||| formats::head_word(d, 3) + 80 * formats::head_word(d, 1) > d.len()
    ||| formats::head_word(d, 4) + 8 * n > d.len()
    ||| formats::head_word(d, 5) + 8 * n > d.len()
    ||| formats::head_word(d, 6) + 16 * n > d.len()
    ||| formats::head_word(d, 8) + n > d.len()
}

/// The head of the file has the fault that `e` names.
pub open spec fn head_has(e: IndexError, d: Seq<u8>) -> bool {
    match e {
        IndexError::FileTooSmall => d.len() < 104,
        IndexError::BadFileMagic => d.take(8) != formats::file_mark(),
        IndexError::UnsupportedVersion => formats::little(d, 8, 4) != 5,
        IndexError::DimensionMismatch => formats::little(d, 12, 4) != 14 || formats::little(
            d,
            16,
            4,
        ) != 16,
        IndexError::ScaleMismatch => formats::little(d, 20, 4) != 10_000,
        IndexError::FileSizeMismatch => formats::head_word(d, 9) != d.len(),
        IndexError::SectionOutOfBounds => a_section_is_cut(d),
        _ => false,
    }
}

/// How early a fault of the head is found.
pub open spec fn head_place_of(e: IndexError) -> int {
    match e {
        IndexError::FileTooSmall => 0,
        IndexError::BadFileMagic => 1,
        IndexError::UnsupportedVersion => 2,
        IndexError::DimensionMismatch => 3,
        IndexError::ScaleMismatch => 4,
        IndexError::FileSizeMismatch => 5,
        _ => 6,
    }
}

/// An index file is refused for the first fault of its head, and where that has none for the
/// first fault of its trees.
pub proof fn law_index_file_is_refused_for_its_first_fault(
    data: &[u8],
    limits: SearchLimits,
    r: Result<Index, IndexError>,
    f: IndexError,
)
    requires
        call_ensures(Index::load_file, (data, limits), r),
    ensures
        r matches Err(e) ==> {
            let d = data@;
            let n = formats::head_word(d, 0);
            let p = d.subrange(formats::head_word(d, 2), formats::head_word(d, 2) + 20_508);
            let t = d.subrange(
                formats::head_word(d, 3),
                formats::head_word(d, 3) + 80 * formats::head_word(d, 1),
            );
            ||| head_has(e, d) && (head_has(f, d) ==> head_place_of(e) <= head_place_of(f))
            ||| !head_has(f, d) && trees_have(e, p, t, n) && (trees_have(f, p, t, n)
                ==> place_of(e) <= place_of(f))
        },
{
    let d = data@;
    assert(crate::index::INDEX_FILE_MAGIC@ =~= formats::file_mark());
    if d.len() >= 8 {
        assert(d.take(8) =~= d.subrange(0, 8));
    }
    formats::lemma_words(d);
    formats::lemma_little(d, 8);
    formats::lemma_little(d, 12);
    formats::lemma_little(d, 16);
    formats::lemma_little(d, 20);
    assert(load::word_at(d, 0) == formats::head_word(d, 0) && load::word_at(d, 1)
        == formats::head_word(d, 1) && load::word_at(d, 2) == formats::head_word(d, 2)
        && load::word_at(d, 3) == formats::head_word(d, 3) && load::word_at(d, 4)
        == formats::head_word(d, 4) && load::word_at(d, 5) == formats::head_word(d, 5)
        && load::word_at(d, 6) == formats::head_word(d, 6) && load::word_at(d, 8)
        == formats::head_word(d, 8) && load::word_at(d, 9) == formats::head_word(d, 9));
    lemma_trees_have(load::partition_section(d), load::node_section(d), load::word_at(d, 0), f);
}

/// What is made without being told anything: a place without a connection, counters at zero,
/// and a search that may reach everything.
pub proof fn law_new_values(c: Client, s: SearchStats, l: SearchLimits)
    requires
        call_ensures(Client::new, (), c),
        call_ensures(SearchStats::default, (), s),
        call_ensures(SearchLimits::none, (), l),
    ensures
        c.fd == -1 && c.buf@.len() == 0 && c.pending is None && c.pending_off == 0,
        c.last_events == 0 && c.bits == 0 && c.mode is Idle,
        s.partition_key == 0 && s.partitions_considered == 0 && s.partitions_searched == 0,
        s.partitions_pruned == 0 && s.empty_partitions == 0 && s.nodes_visited == 0,
        s.nodes_pruned == 0 && s.leaves_scanned == 0 && s.vectors_scanned == 0,
        s.stage8_pruned == 0 && s.full_scanned == 0,
        !l.primary_only && l.max_extra_partitions is None,
{
}

} // verus!
