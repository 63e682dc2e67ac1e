//! How evenly the records fall into the partitions.
use crate::index::{PartitionMeta, PARTITIONS};
use vstd::prelude::*;

verus! {

/// The most partitions that are listed.
pub const TOP_PARTITIONS: usize = 10;

/// The counts of the first `n` partitions that are not empty, in their order.
pub open spec fn filled_counts(partitions: Seq<PartitionMeta>, n: nat) -> Seq<u32>
    decreases n,
{
    if n == 0 {
        Seq::empty()
    } else if partitions[n - 1].count != 0 {
        filled_counts(partitions, (n - 1) as nat).push(partitions[n - 1].count)
    } else {
        filled_counts(partitions, (n - 1) as nat)
    }
}

/// The sum of the counts.
pub open spec fn sum_of(counts: Seq<u32>) -> int
    decreases counts.len(),
{
    if counts.len() == 0 {
        0
    } else {
        sum_of(counts.drop_last()) + counts.last()
    }
}

pub open spec fn ascending(s: Seq<u32>) -> bool {
    forall|i: int, j: int| 0 <= i <= j < s.len() ==> s[i] <= s[j]
}

/// `sorted` are the counts of the filled partitions in ascending order.
pub open spec fn are_sorted_counts(partitions: Seq<PartitionMeta>, sorted: Seq<u32>) -> bool {
    &&& ascending(sorted)
    &&& sorted.to_multiset() == filled_counts(partitions, partitions.len()).to_multiset()
}

/// The count below which `p` percent of the filled partitions lie; zero where there are none.
pub open spec fn percentile(sorted: Seq<u32>, p: int) -> u32 {
    if sorted.len() == 0 {
        0
    } else {
        sorted[(sorted.len() - 1) * p / 100]
    }
}

/// Partition `a` is listed before partition `b`: it holds more, or as many and comes first.
pub open spec fn before(partitions: Seq<PartitionMeta>, a: int, b: int) -> bool {
    partitions[a].count > partitions[b].count || partitions[a].count == partitions[b].count && a
        < b
}

/// `list` are the filled partitions among the first `n`, the fullest first.
pub open spec fn is_ranking(partitions: Seq<PartitionMeta>, n: int, list: Seq<usize>) -> bool {
    &&& forall|i: int|
        0 <= i < list.len() ==> 0 <= (#[trigger] list[i]) < n && partitions[list[i] as int].count
            != 0
    &&& forall|k: int|
        0 <= k < n && (#[trigger] partitions[k]).count != 0 ==> list.contains(k as usize)
    &&& forall|i: int, j: int|
        0 <= i < j < list.len() ==> before(
            partitions,
            #[trigger] list[i] as int,
            #[trigger] list[j] as int,
        )
}

/// How evenly the records fall into the partitions.
pub struct Distribution {
    pub non_empty: usize,
    pub empty: usize,
    pub min: u32,
    pub p50: u32,
    pub p90: u32,
    pub p95: u32,
    pub p99: u32,
    pub max: u32,
    pub total: u64,
    /// The fullest partitions and their counts, the fullest first.
    pub top: Vec<(usize, u32)>,
}

impl Distribution {
    /// The distribution over these partitions, whose counts are `sorted` and whose filled
    /// ones are ranked as in `ranking`.
    pub open spec fn is_of(
        self,
        partitions: Seq<PartitionMeta>,
        sorted: Seq<u32>,
        ranking: Seq<usize>,
    ) -> bool {
        &&& are_sorted_counts(partitions, sorted)
        &&& is_ranking(partitions, partitions.len() as int, ranking)
        &&& self.non_empty == sorted.len()
        &&& self.empty == partitions.len() - sorted.len()
        &&& self.min == percentile(sorted, 0)
        &&& self.p50 == percentile(sorted, 50)
        &&& self.p90 == percentile(sorted, 90)
        &&& self.p95 == percentile(sorted, 95)
        &&& self.p99 == percentile(sorted, 99)
        &&& self.max == percentile(sorted, 100)
        &&& self.total == sum_of(sorted)
        &&& self.top@ == ranking.take(
            if ranking.len() < TOP_PARTITIONS {
                ranking.len() as int
            } else {
                TOP_PARTITIONS as int
            },
        ).map_values(|k: usize| (k, partitions[k as int].count))
    }
}

/// Puts `x` where it belongs.
fn insert_sorted(counts: &mut Vec<u32>, x: u32)
    requires
        ascending(old(counts)@),
    ensures
        ascending(final(counts)@),
        final(counts)@.to_multiset() == old(counts)@.to_multiset().insert(x),
        final(counts)@.len() == old(counts)@.len() + 1,
{
    let mut i: usize = counts.len();
    while i > 0 && counts[i - 1] > x
        invariant
            i <= counts@.len(),
            counts@ == old(counts)@,
            forall|j: int| i <= j < counts@.len() ==> #[trigger] counts@[j] > x,
        decreases i,
    {
        i = i - 1;
    }
    let ghost s = counts@;
    assert forall|j: int| 0 <= j < i implies #[trigger] s[j] <= x by {
        assert(s[j] <= s[i - 1]);
    }
    counts.insert(i, x);
    proof {
        broadcast use vstd::seq_lib::group_to_multiset_ensures;

        assert(counts@ == s.insert(i as int, x));
        assert forall|a: int, b: int| 0 <= a <= b < counts@.len() implies counts@[a]
            <= counts@[b] by {
            let fa = if a < i {
                a
            } else {
                a - 1
            };
            let fb = if b < i {
                b
            } else {
                b - 1
            };
            if a != i && b != i {
                assert(s[fa] <= s[fb]);
            }
        }
    }
}

/// The counts of the filled partitions in ascending order.
fn sorted_counts(partitions: &[PartitionMeta]) -> (r: Vec<u32>)
    ensures
        are_sorted_counts(partitions@, r@),
        r@.len() <= partitions@.len(),
{
    let mut counts: Vec<u32> = Vec::new();
    let mut i: usize = 0;
    while i < partitions.len()
        invariant
            i <= partitions@.len(),
            ascending(counts@),
            counts@.len() <= i,
            counts@.to_multiset() == filled_counts(partitions@, i as nat).to_multiset(),
        decreases partitions@.len() - i,
    {
        let c: u32 = partitions[i].count;
        if c != 0 {
            insert_sorted(&mut counts, c);
            proof {
                broadcast use vstd::seq_lib::group_to_multiset_ensures;

            }
        }
        i = i + 1;
    }
    counts
}

/// Puts partition `k`, which is filled, behind all that are ranked and hold at least as much.
fn insert_ranked(partitions: &[PartitionMeta], list: &mut Vec<usize>, k: usize)
    requires
        k < partitions@.len(),
        partitions@[k as int].count != 0,
        is_ranking(partitions@, k as int, old(list)@),
    ensures
        is_ranking(partitions@, k + 1, final(list)@),
{
    let count: u32 = partitions[k].count;
    let mut i: usize = list.len();
    while i > 0 && partitions[list[i - 1]].count < count
        invariant
            i <= list@.len(),
            list@ == old(list)@,
            k < partitions@.len(),
            count == partitions@[k as int].count,
            is_ranking(partitions@, k as int, list@),
            forall|j: int|
                i <= j < list@.len() ==> partitions@[#[trigger] list@[j] as int].count < count,
        decreases i,
    {
        assert(list@[i - 1] < k);
        i = i - 1;
        proof {
            if i > 0 {
                assert(list@[i - 1] < k);
            }
        }
    }
    let ghost s = list@;
    assert forall|j: int| 0 <= j < i implies partitions@[#[trigger] s[j] as int].count >= count by {
        if j < i - 1 {
            assert(before(partitions@, s[j] as int, s[i - 1] as int));
        }
    }
    list.insert(i, k);
    proof {
        let t = list@;
        assert(t == s.insert(i as int, k));
        assert forall|a: int| 0 <= a < t.len() implies 0 <= (#[trigger] t[a]) < k + 1
            && partitions@[t[a] as int].count != 0 by {
            if a < i {
                assert(t[a] == s[a]);
            } else if a > i {
                assert(t[a] == s[a - 1]);
            }
        }
        assert forall|q: int| 0 <= q < k + 1 && (#[trigger] partitions@[q]).count
            != 0 implies t.contains(q as usize) by {
            if q == k {
                assert(t[i as int] == k);
            } else {
                assert(s.contains(q as usize));
                let a = choose|a: int| 0 <= a < s.len() && s[a] == q as usize;
                if a < i {
                    assert(t[a] == q as usize);
                } else {
                    assert(t[a + 1] == q as usize);
                }
            }
        }
        assert forall|a: int, b: int| 0 <= a < b < t.len() implies before(
            partitions@,
            #[trigger] t[a] as int,
            #[trigger] t[b] as int,
        ) by {
            let fa = if a < i {
                a
            } else {
                a - 1
            };
            let fb = if b < i {
                b
            } else {
                b - 1
            };
            if a != i && b != i {
                assert(before(partitions@, s[fa] as int, s[fb] as int));
            } else if a == i {
                assert(partitions@[s[fb] as int].count < count);
            } else {
                assert(partitions@[s[fa] as int].count >= count);
                assert(s[fa] < k);
            }
        }
    }
}

/// The filled partitions, the fullest first.
fn ranking(partitions: &[PartitionMeta]) -> (r: Vec<usize>)
    ensures
        is_ranking(partitions@, partitions@.len() as int, r@),
{
    let mut list: Vec<usize> = Vec::new();
    let mut k: usize = 0;
    while k < partitions.len()
        invariant
            k <= partitions@.len(),
            is_ranking(partitions@, k as int, list@),
        decreases partitions@.len() - k,
    {
        if partitions[k].count != 0 {
            insert_ranked(partitions, &mut list, k);
        }
        k = k + 1;
    }
    list
}

fn percentile_of(sorted: &Vec<u32>, p: usize) -> (r: u32)
    requires
        p <= 100,
        sorted@.len() <= 256,
    ensures
        r == percentile(sorted@, p as int),
{
    if sorted.len() == 0 {
        return 0;
    }
    let n: usize = sorted.len() - 1;
    assert(0 <= n * p <= n * 100) by (nonlinear_arith)
        requires
            0 <= p <= 100,
            n >= 0,
    ;
    sorted[n * p / 100]
}

fn total_of(sorted: &Vec<u32>) -> (r: u64)
    requires
        sorted@.len() <= 256,
    ensures
        r == sum_of(sorted@),
{
    let mut total: u64 = 0;
    let mut i: usize = 0;
    assert(sum_of(sorted@.take(0)) == 0);
    while i < sorted.len()
        invariant
            i <= sorted@.len() <= 256,
            total == sum_of(sorted@.take(i as int)),
            total <= i * 0xffff_ffff,
        decreases sorted@.len() - i,
    {
        assert(sorted@.take(i + 1).drop_last() =~= sorted@.take(i as int));
        total = total + sorted[i] as u64;
        i = i + 1;
    }
    assert(sorted@.take(i as int) =~= sorted@);
    total
}

fn top_of(partitions: &[PartitionMeta], list: &Vec<usize>) -> (r: Vec<(usize, u32)>)
    requires
        forall|i: int| 0 <= i < list@.len() ==> (#[trigger] list@[i]) < partitions@.len(),
    ensures
        r@ == list@.take(
            if list@.len() < TOP_PARTITIONS {
                list@.len() as int
            } else {
                TOP_PARTITIONS as int
            },
        ).map_values(|k: usize| (k, partitions@[k as int].count)),
{
    let n: usize = if list.len() < TOP_PARTITIONS { list.len() } else { TOP_PARTITIONS };
    let mut top: Vec<(usize, u32)> = Vec::new();
    let mut i: usize = 0;
    while i < n
        invariant
            i <= n <= list@.len(),
            top@.len() == i,
            forall|i: int| 0 <= i < list@.len() ==> (#[trigger] list@[i]) < partitions@.len(),
            forall|j: int|
                0 <= j < i ==> #[trigger] top@[j] == (
                    list@[j],
                    partitions@[list@[j] as int].count,
                ),
        decreases n - i,
    {
        let k: usize = list[i];
        top.push((k, partitions[k].count));
        i = i + 1;
    }
    assert(top@ =~= list@.take(n as int).map_values(|k: usize| (k, partitions@[k as int].count)));
    top
}

/// How evenly the records fall into the partitions.
pub fn log_distribution(partitions: &[PartitionMeta]) -> (r: Distribution)
    requires
        partitions@.len() == 256,
    ensures
        exists|sorted: Seq<u32>, ranking: Seq<usize>| #[trigger]
            r.is_of(partitions@, sorted, ranking),
{
    let sorted: Vec<u32> = sorted_counts(partitions);
    let list: Vec<usize> = ranking(partitions);
    let r: Distribution = Distribution {
        non_empty: sorted.len(),
        empty: PARTITIONS - sorted.len(),
        min: percentile_of(&sorted, 0),
        p50: percentile_of(&sorted, 50),
        p90: percentile_of(&sorted, 90),
        p95: percentile_of(&sorted, 95),
        p99: percentile_of(&sorted, 99),
        max: percentile_of(&sorted, 100),
        total: total_of(&sorted),
        top: top_of(partitions, &list),
    };
    assert(r.is_of(partitions@, sorted@, list@));
    r
}

proof fn lemma_sum_count(counts: Seq<u32>, partitions: Seq<PartitionMeta>, n: nat)
    requires
        n <= partitions.len(),
        counts == filled_counts(partitions, n),
    ensures
        sum_of(counts) == records_in(partitions, n),
    decreases n,
{
    if n > 0 {
        lemma_sum_count(
            filled_counts(partitions, (n - 1) as nat),
            partitions,
            (n - 1) as nat,
        );
        if partitions[n - 1].count != 0 {
            assert(counts.drop_last() =~= filled_counts(partitions, (n - 1) as nat));
        }
    }
}

/// The records in the first `n` partitions.
pub open spec fn records_in(partitions: Seq<PartitionMeta>, n: nat) -> int
    decreases n,
{
    if n == 0 {
        0
    } else {
        records_in(partitions, (n - 1) as nat) + partitions[n - 1].count
    }
}

/// The total is that of all partitions: the empty ones add nothing, and the order does not
/// matter.
pub proof fn law_total_counts_all_records(
    d: Distribution,
    partitions: Seq<PartitionMeta>,
    sorted: Seq<u32>,
    ranking: Seq<usize>,
)
    requires
        d.is_of(partitions, sorted, ranking),
    ensures
        d.total == records_in(partitions, partitions.len()),
{
    let counts = filled_counts(partitions, partitions.len());
    lemma_sum_count(counts, partitions, partitions.len());
    lemma_sum_perm(sorted, counts);
}

proof fn lemma_sum_remove(s: Seq<u32>, i: int)
    requires
        0 <= i < s.len(),
    ensures
        sum_of(s.remove(i)) == sum_of(s) - s[i],
    decreases s.len(),
{
    let last = s.len() - 1;
    if i == last {
        assert(s.remove(i) =~= s.drop_last());
    } else {
        lemma_sum_remove(s.drop_last(), i);
        assert(s.remove(i).drop_last() =~= s.drop_last().remove(i));
        assert(s.remove(i).last() == s.last());
    }
}

proof fn lemma_sum_perm(a: Seq<u32>, b: Seq<u32>)
    requires
        a.to_multiset() == b.to_multiset(),
    ensures
        sum_of(a) == sum_of(b),
    decreases a.len(),
{
    broadcast use vstd::seq_lib::group_to_multiset_ensures;

    a.to_multiset_ensures();
    b.to_multiset_ensures();
    assert(a.len() == b.len());
    if a.len() > 0 {
        let x = a.last();
        assert(a[a.len() - 1] == x);
        assert(a.contains(x));
        assert(a.to_multiset().count(x) > 0);
        assert(b.to_multiset().count(x) > 0);
        assert(b.contains(x));
        let i = choose|i: int| 0 <= i < b.len() && b[i] == x;
        lemma_sum_remove(b, i);
        assert(a.drop_last() =~= a.remove(a.len() - 1));
        assert(a.drop_last().to_multiset() =~= a.to_multiset().remove(x));
        assert(b.remove(i).to_multiset() =~= b.to_multiset().remove(x));
        lemma_sum_perm(a.drop_last(), b.remove(i));
    }
}

/// How many of the first `n` partitions hold a number of records that is as `f` says.
pub open spec fn holding(
    partitions: Seq<PartitionMeta>,
    n: nat,
    f: spec_fn(u32) -> bool,
) -> nat
    decreases n,
{
    if n == 0 {
        0
    } else {
        holding(partitions, (n - 1) as nat, f) + if f(partitions[n - 1].count) {
            1nat
        } else {
            0
        }
    }
}

/// How many of `s` are as `f` says.
spec fn amount(s: Seq<u32>, f: spec_fn(u32) -> bool) -> nat
    decreases s.len(),
{
    if s.len() == 0 {
        0
    } else {
        amount(s.drop_last(), f) + if f(s.last()) {
            1nat
        } else {
            0
        }
    }
}

proof fn lemma_amount_remove(s: Seq<u32>, f: spec_fn(u32) -> bool, i: int)
    requires
        0 <= i < s.len(),
    ensures
        amount(s.remove(i), f) == amount(s, f) - if f(s[i]) {
            1int
        } else {
            0
        },
    decreases s.len(),
{
    if i == s.len() - 1 {
        assert(s.remove(i) =~= s.drop_last());
    } else {
        lemma_amount_remove(s.drop_last(), f, i);
        assert(s.remove(i).drop_last() =~= s.drop_last().remove(i));
        assert(s.remove(i).last() == s.last());
    }
}

proof fn lemma_amount_perm(a: Seq<u32>, b: Seq<u32>, f: spec_fn(u32) -> bool)
    requires
        a.to_multiset() == b.to_multiset(),
    ensures
        a.len() == b.len(),
        amount(a, f) == amount(b, f),
    decreases a.len(),
{
    broadcast use vstd::seq_lib::group_to_multiset_ensures;

    a.to_multiset_ensures();
    b.to_multiset_ensures();
    if a.len() > 0 {
        let x = a.last();
        assert(a[a.len() - 1] == x);
        assert(a.contains(x));
        assert(b.to_multiset().count(x) > 0);
        assert(b.contains(x));
        let i = choose|i: int| 0 <= i < b.len() && b[i] == x;
        lemma_amount_remove(b, f, i);
        assert(a.drop_last() =~= a.remove(a.len() - 1));
        assert(a.drop_last().to_multiset() =~= a.to_multiset().remove(x));
        assert(b.remove(i).to_multiset() =~= b.to_multiset().remove(x));
        lemma_amount_perm(a.drop_last(), b.remove(i), f);
    }
}

proof fn lemma_amount_filled(
    partitions: Seq<PartitionMeta>,
    n: nat,
    f: spec_fn(u32) -> bool,
)
    requires
        n <= partitions.len(),
        !f(0),
    ensures
        amount(filled_counts(partitions, n), f) == holding(partitions, n, f),
    decreases n,
{
    if n > 0 {
        let before = filled_counts(partitions, (n - 1) as nat);
        lemma_amount_filled(partitions, (n - 1) as nat, f);
        assert(before.push(partitions[n - 1].count).drop_last() =~= before);
    }
}

proof fn lemma_amount_all(s: Seq<u32>, f: spec_fn(u32) -> bool)
    requires
        forall|i: int| 0 <= i < s.len() ==> f(#[trigger] s[i]),
    ensures
        amount(s, f) == s.len(),
    decreases s.len(),
{
    if s.len() > 0 {
        lemma_amount_all(s.drop_last(), f);
    }
}

/// Where those before `k` and no others can be as `f` says, at most `k` are; where those before
/// `k` all are, at least `k` are.
proof fn lemma_amount_split(s: Seq<u32>, f: spec_fn(u32) -> bool, k: int)
    requires
        0 <= k <= s.len(),
    ensures
        (forall|i: int| k <= i < s.len() ==> !f(#[trigger] s[i])) ==> amount(s, f) <= k,
        (forall|i: int| 0 <= i < k ==> f(#[trigger] s[i])) ==> amount(s, f) >= k,
    decreases s.len(),
{
    if s.len() > 0 {
        let t = s.drop_last();
        if k < s.len() {
            lemma_amount_split(t, f, k);
            if forall|i: int| k <= i < s.len() ==> !f(#[trigger] s[i]) {
                assert forall|i: int| k <= i < t.len() implies !f(#[trigger] t[i]) by {
                    assert(t[i] == s[i]);
                }
                assert(!f(s[s.len() - 1]));
            }
            if forall|i: int| 0 <= i < k ==> f(#[trigger] s[i]) {
                assert forall|i: int| 0 <= i < k implies f(#[trigger] t[i]) by {
                    assert(t[i] == s[i]);
                }
            }
        } else {
            lemma_amount_split(t, f, k - 1);
            if forall|i: int| 0 <= i < k ==> f(#[trigger] s[i]) {
                assert forall|i: int| 0 <= i < k - 1 implies f(#[trigger] t[i]) by {
                    assert(t[i] == s[i]);
                }
                assert(f(s[s.len() - 1]));
            }
        }
    }
}

/// `v` stands where `p` percent of the filled partitions are left behind: of the others, counted
/// from none, so many hold less, and with those that hold as much there are more. Without
/// filled partitions it is zero.
pub open spec fn stands_at(partitions: Seq<PartitionMeta>, p: int, v: u32) -> bool {
    let filled = holding(partitions, partitions.len(), |c: u32| c > 0);
    if filled == 0 {
        v == 0
    } else {
        &&& v > 0
        &&& 100 * holding(partitions, partitions.len(), |c: u32| 0 < c < v) <= (filled - 1) * p
        &&& (filled - 1) * p < 100 * holding(partitions, partitions.len(), |c: u32| 0 < c <= v)
    }
}

proof fn lemma_filled_are_some(partitions: Seq<PartitionMeta>, n: nat)
    requires
        n <= partitions.len(),
    ensures
        forall|i: int|
            0 <= i < filled_counts(partitions, n).len() ==> #[trigger] filled_counts(
                partitions,
                n,
            )[i] > 0,
    decreases n,
{
    if n > 0 {
        let before = filled_counts(partitions, (n - 1) as nat);
        let now = filled_counts(partitions, n);
        lemma_filled_are_some(partitions, (n - 1) as nat);
        assert forall|i: int| 0 <= i < now.len() implies #[trigger] now[i] > 0 by {
            if i < before.len() {
                assert(now[i] == before[i]);
            }
        }
    }
}

proof fn lemma_sorted_are_filled(partitions: Seq<PartitionMeta>, sorted: Seq<u32>)
    requires
        are_sorted_counts(partitions, sorted),
    ensures
        forall|i: int| 0 <= i < sorted.len() ==> #[trigger] sorted[i] > 0,
        sorted.len() == holding(partitions, partitions.len(), |c: u32| c > 0),
{
    let filled = filled_counts(partitions, partitions.len());
    let f = |c: u32| c > 0;
    lemma_filled_are_some(partitions, partitions.len());
    lemma_amount_perm(sorted, filled, f);
    lemma_amount_filled(partitions, partitions.len(), f);
    lemma_amount_all(filled, f);
    broadcast use vstd::seq_lib::group_to_multiset_ensures;

    assert forall|i: int| 0 <= i < sorted.len() implies #[trigger] sorted[i] > 0 by {
        assert(sorted.contains(sorted[i]));
        assert(filled.to_multiset().count(sorted[i]) > 0);
        assert(filled.contains(sorted[i]));
    }
}

proof fn lemma_stands_at(partitions: Seq<PartitionMeta>, sorted: Seq<u32>, p: int)
    requires
        are_sorted_counts(partitions, sorted),
        0 <= p <= 100,
    ensures
        stands_at(partitions, p, percentile(sorted, p)),
{
    let n = partitions.len();
    let v = percentile(sorted, p);
    lemma_sorted_are_filled(partitions, sorted);
    if sorted.len() > 0 {
        let m = (sorted.len() - 1) * p;
        assert(0 <= m <= (sorted.len() - 1) * 100) by (nonlinear_arith)
            requires
                m == (sorted.len() - 1) * p,
                0 <= p <= 100,
                sorted.len() >= 1,
        ;
        let k = m / 100;
        let less = |c: u32| 0 < c < v;
        let upto = |c: u32| 0 < c <= v;
        let filled = filled_counts(partitions, n);
        lemma_amount_perm(sorted, filled, less);
        lemma_amount_perm(sorted, filled, upto);
        lemma_amount_filled(partitions, n, less);
        lemma_amount_filled(partitions, n, upto);
        lemma_amount_split(sorted, less, k);
        lemma_amount_split(sorted, upto, k + 1);
    }
}

/// What the distribution says of the partitions: how many hold something and how many nothing,
/// how much they hold together, and what those at each mark hold.
pub proof fn law_distribution_tells_how_the_records_fall(
    partitions: &[PartitionMeta],
    d: Distribution,
)
    requires
        call_ensures(log_distribution, (partitions,), d),
        partitions@.len() == 256,
    ensures
        d.non_empty == holding(partitions@, 256, |c: u32| c > 0),
        d.empty == 256 - holding(partitions@, 256, |c: u32| c > 0),
        d.total == records_in(partitions@, 256),
        stands_at(partitions@, 0, d.min),
        stands_at(partitions@, 50, d.p50),
        stands_at(partitions@, 90, d.p90),
        stands_at(partitions@, 95, d.p95),
        stands_at(partitions@, 99, d.p99),
        stands_at(partitions@, 100, d.max),
{
    let (sorted, ranking) = choose|sorted: Seq<u32>, ranking: Seq<usize>| #[trigger]
        d.is_of(partitions@, sorted, ranking);
    law_total_counts_all_records(d, partitions@, sorted, ranking);
    lemma_sorted_are_filled(partitions@, sorted);
    lemma_stands_at(partitions@, sorted, 0);
    lemma_stands_at(partitions@, sorted, 50);
    lemma_stands_at(partitions@, sorted, 90);
    lemma_stands_at(partitions@, sorted, 95);
    lemma_stands_at(partitions@, sorted, 99);
    lemma_stands_at(partitions@, sorted, 100);
}

/// Partition `k` is listed in `top`.
pub open spec fn listed(top: Seq<(usize, u32)>, k: int) -> bool {
    exists|i: int| 0 <= i < top.len() && (#[trigger] top[i]).0 == k
}

/// The fullest partitions are listed with what they hold, the fuller ones first and of those
/// that hold as much the lower ones. A filled one is left out only behind ten that come first.
pub proof fn law_the_fullest_partitions_are_listed(
    partitions: &[PartitionMeta],
    d: Distribution,
)
    requires
        call_ensures(log_distribution, (partitions,), d),
        partitions@.len() == 256,
    ensures
        d.top@.len() <= 10,
        forall|i: int|
            0 <= i < d.top@.len() ==> {
                let (k, c) = #[trigger] d.top@[i];
                k < 256 && c > 0 && c == partitions@[k as int].count
            },
        forall|i: int, j: int|
            0 <= i < j < d.top@.len() ==> (#[trigger] d.top@[i]).1 > (#[trigger] d.top@[j]).1
                || d.top@[i].1 == d.top@[j].1 && d.top@[i].0 < d.top@[j].0,
        forall|k: int|
            0 <= k < 256 && (#[trigger] partitions@[k]).count > 0 && !listed(d.top@, k)
                ==> d.top@.len() == 10,
        forall|i: int, k: int|
            #![trigger d.top@[i], partitions@[k]]
            0 <= i < d.top@.len() && 0 <= k < 256 && partitions@[k].count > 0 && !listed(d.top@, k)
                ==> d.top@[i].1 > partitions@[k].count || d.top@[i].1 == partitions@[k].count
                && d.top@[i].0 < k,
{
    let p = partitions@;
    let (sorted, list) = choose|sorted: Seq<u32>, list: Seq<usize>| #[trigger]
        d.is_of(p, sorted, list);
    let top = d.top@;
    let n = top.len() as int;
    assert forall|i: int| 0 <= i < n implies #[trigger] top[i] == (
        list[i],
        p[list[i] as int].count,
    ) && list[i] < 256 && p[list[i] as int].count != 0 by {
        assert(0 <= list[i] < 256);
    }
    assert forall|i: int, j: int| 0 <= i < j < n implies (#[trigger] top[i]).1 > (
    #[trigger] top[j]).1 || top[i].1 == top[j].1 && top[i].0 < top[j].0 by {
        assert(before(p, list[i] as int, list[j] as int));
    }
    assert forall|k: int| 0 <= k < 256 && (#[trigger] p[k]).count > 0 && !listed(
        top,
        k,
    ) implies n == 10 && exists|j: int| 10 <= j < list.len() && #[trigger] list[j] == k by {
        assert(list.contains(k as usize));
        let j = choose|j: int| 0 <= j < list.len() && list[j] == k as usize;
        if j < n {
            assert(top[j].0 == k);
            assert(listed(top, k));
        }
        assert(list[j] == k);
    }
    assert forall|i: int, k: int|
        #![trigger top[i], p[k]]
        0 <= i < n && 0 <= k < 256 && p[k].count > 0 && !listed(top, k) implies top[i].1
        > p[k].count || top[i].1 == p[k].count && top[i].0 < k by {
        let j = choose|j: int| 10 <= j < list.len() && #[trigger] list[j] == k;
        assert(before(p, list[i] as int, list[j] as int));
    }
}

} // verus!
