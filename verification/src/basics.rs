//! What the smallest parts do.
use crate::builder;
use crate::builder::Built;
use crate::bytes;
use crate::bytes::matches_at;
use crate::client::Client;
use crate::index;
use crate::index::{align_up, PartitionMeta, QVec};
use crate::json;
use crate::json::{copied, Decimal};
use crate::kd::BuildRecord;
use crate::lex;
use crate::lex::{is_ascii_digit, is_white, skip_digits, skip_white};
use crate::load;
use crate::load::bbox_of;
use crate::lookup;
use crate::search::Index;
use crate::stream::{ByteSource, MemorySource, StreamParser};
use crate::text;
use crate::top5::Top5;
use vstd::prelude::*;

verus! {

/// Digits and white space are skipped up to the next byte that is neither.
pub proof fn law_runs_are_skipped_whole(
    data: &[u8],
    pos: usize,
    d: usize,
    w: usize,
    n: int,
)
    requires
        call_ensures(skip_digits, (data, pos), d),
        call_ensures(skip_white, (data, pos), w),
        pos <= n <= data@.len(),
    ensures
        (forall|i: int| pos <= i < n ==> text::is_figure(#[trigger] data@[i])) && !(n < data@.len()
            && text::is_figure(data@[n])) ==> d == n,
        (forall|i: int| pos <= i < n ==> text::is_blank(#[trigger] data@[i])) && !(n < data@.len()
            && text::is_blank(data@[n])) ==> w == n,
{
    let s = data@.skip(pos as int);
    let k = n - pos;
    if (forall|i: int| pos <= i < n ==> text::is_figure(#[trigger] data@[i])) && !(n < data@.len()
        && text::is_figure(data@[n])) {
        assert forall|i: int| 0 <= i < k implies lex::is_digit(#[trigger] s[i]) by {
            assert(s[i] == data@[pos + i]);
            assert(text::is_figure(data@[pos + i]));
        }
        lex::lemma_leading_is(s, |b: u8| lex::is_digit(b), k);
    }
    if (forall|i: int| pos <= i < n ==> text::is_blank(#[trigger] data@[i])) && !(n < data@.len()
        && text::is_blank(data@[n])) {
        assert forall|i: int| 0 <= i < k implies lex::is_space(#[trigger] s[i]) by {
            assert(s[i] == data@[pos + i]);
            assert(text::is_blank(data@[pos + i]));
        }
        lex::lemma_leading_is(s, |b: u8| lex::is_space(b), k);
    }
}

/// The ten digits are digits, and space, tab and the two ends of a line are white space.
pub proof fn law_bytes_are_told_apart(b: u8, d: bool, w: bool)
    requires
        call_ensures(is_ascii_digit, (b,), d),
        call_ensures(is_white, (b,), w),
    ensures
        d <==> 0x30 <= b <= 0x39,
        w <==> b == 0x20 || b == 0x09 || b == 0x0a || b == 0x0d,
{
}

/// A pattern is found where each of its bytes stands.
pub proof fn law_pattern_is_matched_byte_by_byte(data: &[u8], pos: usize, pat: &[u8], r: bool)
    requires
        call_ensures(matches_at, (data, pos, pat), r),
    ensures
        r <==> lookup::word_stands(data@, pos as int, pat@),
{
    lookup::lemma_holds(data@, pos as int, pat@);
}

/// A copy has the bytes that it is a copy of.
pub proof fn law_copy_has_the_same_bytes(data: &[u8], from: usize, to: usize, r: Vec<u8>)
    requires
        call_ensures(copied, (data, from, to), r),
        from <= to <= data@.len(),
    ensures
        r@.len() == to - from,
        forall|i: int| 0 <= i < r@.len() ==> #[trigger] r@[i] == data@[from + i],
{
}

/// A vector of zeroes, a partition without records, and the numbers zero and one.
pub proof fn law_plain_values(q: QVec, p: PartitionMeta, zero: Decimal, one: Decimal)
    requires
        call_ensures(QVec::zero, (), q),
        call_ensures(PartitionMeta::empty, (), p),
        call_ensures(Decimal::zero, (), zero),
        call_ensures(Decimal::one, (), one),
    ensures
        forall|d: int| 0 <= d < 16 ==> #[trigger] q.at(d) == 0,
        p.start == 0 && p.count == 0 && p.root == -1 && p._pad == 0,
        forall|d: int| 0 <= d < 16 ==> #[trigger] p.bbox_min.at(d) == 0,
        forall|d: int| 0 <= d < 16 ==> #[trigger] p.bbox_max.at(d) == 0,
        !zero@.negative && text::worth(zero@.whole) == 0 && text::worth(zero@.fraction) == 0,
        !one@.negative && text::worth(one@.whole) == 1 && text::worth(one@.fraction) == 0,
{
    reveal_with_fuel(text::worth, 2);
}

/// Rounding up gives the least multiple that is not less.
pub proof fn law_alignment_is_the_next_multiple(v: usize, k: nat, align: usize, r: usize)
    requires
        call_ensures(align_up, (v, align), r),
        k < usize::BITS,
        align == vstd::arithmetic::power2::pow2(k),
    ensures
        r as int % align as int == 0,
        v <= r < v + align,
{
    assert(index::is_power_of_two(align as int));
}

/// The box around vectors reaches in each dimension from the least to the greatest coordinate.
pub proof fn law_box_reaches_from_least_to_greatest(
    vectors: &[QVec],
    r: (QVec, QVec),
    d: int,
    i: int,
)
    requires
        call_ensures(bbox_of, (vectors,), r),
        0 <= d < 16,
        0 <= i < vectors@.len(),
    ensures
        r.0.at(d) <= vectors@[i].at(d) <= r.1.at(d),
        exists|j: int| 0 <= j < vectors@.len() && (#[trigger] vectors@[j]).at(d) == r.0.at(d),
        exists|j: int| 0 <= j < vectors@.len() && (#[trigger] vectors@[j]).at(d) == r.1.at(d),
{
    assert(load::extremes_in(vectors@, d, r.0.at(d), r.1.at(d)));
}

/// Among no neighbours the worst is the farthest, and none is a fraud.
pub proof fn law_no_neighbours_yet(t: Top5, u: Top5, w: i32)
    requires
        call_ensures(Top5::new, (), t),
        call_ensures(Top5::worst, (&u,), w),
    ensures
        forall|i: int| 0 <= i < 5 ==> #[trigger] t.dists@[i] == 0x7fff_ffff,
        forall|i: int| 0 <= i < 5 ==> !(#[trigger] t.fraud@[i]),
        w == u.dists@[4],
{
}

/// What was answered is forgotten, and what came behind it stays.
pub proof fn law_answered_bytes_are_forgotten(c: &mut Client, consumed: usize)
    requires
        call_ensures(Client::compact, (c, consumed), ()),
    ensures
        consumed < old(c).buf@.len() ==> final(c).buf@ == old(c).buf@.skip(consumed as int),
        consumed >= old(c).buf@.len() ==> final(c).buf@.len() == 0,
        final(c)@.pending == old(c)@.pending,
        final(c)@.pending_off == old(c)@.pending_off,
        final(c).fd == old(c).fd && final(c).mode == old(c).mode,
        final(c).bits == old(c).bits && final(c).last_events == old(c).last_events,
{
}

/// A parser starts with all of its text, and has something as long as something is left of it.
pub proof fn law_parser_reads_byte_by_byte<S: ByteSource>(
    data: Vec<u8>,
    m: MemorySource,
    source: S,
    p: StreamParser<S>,
    a: StreamParser<S>,
    b: u8,
    c: &mut StreamParser<S>,
    d: &mut StreamParser<S>,
    has: bool,
    e: &mut StreamParser<S>,
    need: usize,
    ok: bool,
)
    requires
        call_ensures(MemorySource::new, (data,), m),
        call_ensures(StreamParser::<S>::new, (source,), p),
        call_ensures(StreamParser::<S>::peek, (&a,), b),
        call_ensures(StreamParser::<S>::advance, (c,), ()),
        call_ensures(StreamParser::<S>::has_data, (d,), has),
        call_ensures(StreamParser::<S>::ensure, (e, need), ok),
    ensures
        m.rest() == data@,
        p.rest() == source.rest(),
        b == a.rest()[0],
        final(c).rest() == old(c).rest().skip(1),
        final(d).rest() == old(d).rest(),
        has <==> old(d).rest().len() > 0,
        final(e).rest() == old(e).rest(),
        ok <==> need == 0 || old(e).rest().len() > 0,
{
}

/// What is built of entries becomes an index that holds them in the order of their partitions,
/// reaches everything, and can be searched.
pub proof fn law_built_index_can_be_searched(
    entries: &[BuildRecord],
    built: Built,
    ix: Index,
    r: bool,
)
    requires
        call_ensures(builder::build_partitions, (entries,), built),
        call_ensures(Built::into_index, (built,), ix),
        call_ensures(Index::is_searchable, (&ix,), r),
        entries@.len() <= u32::MAX,
        forall|i: int| 0 <= i < entries@.len() ==> (#[trigger] entries@[i]).proper(),
    ensures
        r,
        ix.count == entries@.len(),
        ix.vectors@ == built.records@.map_values(|r: BuildRecord| r.qvec),
        ix.labels@ == built.records@.map_values(|r: BuildRecord| r.label),
        ix.partitions@ == built.partitions@,
        ix.nodes@ == built.nodes@,
        !ix.limits.primary_only && ix.limits.max_extra_partitions is None,
{
    builder::law_built_index_is_sound(built, entries@, ix);
    builder::law_records_are_the_entries(built, entries@);
    built.records@.to_multiset_ensures();
    entries@.to_multiset_ensures();
    assert(ix.vectors@ =~= built.records@.map_values(|r: BuildRecord| r.qvec));
    assert(ix.labels@ =~= built.records@.map_values(|r: BuildRecord| r.label));
}

} // verus!
