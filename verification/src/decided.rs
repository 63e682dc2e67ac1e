//! What the answer of a search depends on.
use crate::exact;
use crate::index::QVec;
use crate::search::Index;
use vstd::prelude::*;

verus! {

impl Index {
    /// The vectors and their labels.
    pub open spec fn labelled(self) -> Seq<(QVec, u8)> {
        Seq::new(self.count as nat, |i: int| (self.vector(i), self.labels@[i]))
    }
}

/// The number of entries for which `p` holds.
pub open spec fn count_where(s: Seq<(QVec, u8)>, p: spec_fn((QVec, u8)) -> bool) -> nat
    decreases s.len(),
{
    if s.len() == 0 {
        0
    } else {
        count_where(s.drop_last(), p) + if p(s.last()) {
            1nat
        } else {
            0
        }
    }
}

/// The vectors that are at most `t` away from `q`.
pub open spec fn within(s: Seq<(QVec, u8)>, q: QVec, t: int) -> nat {
    count_where(s, |x: (QVec, u8)| exact::squared_distance(q, x.0) <= t)
}

/// The frauds that are at most `t` away from `q`.
pub open spec fn frauds_within(s: Seq<(QVec, u8)>, q: QVec, t: int) -> nat {
    count_where(s, |x: (QVec, u8)| exact::squared_distance(q, x.0) <= t && x.1 != 0)
}

/// The vectors that are labelled as frauds.
pub open spec fn frauds_in(s: Seq<(QVec, u8)>) -> nat {
    count_where(s, |x: (QVec, u8)| x.1 != 0)
}

/// It is decided which vectors are the nearest: there are at most five, or the fifth is nearer
/// than the sixth, so that within some distance there are exactly five.
pub open spec fn decided(s: Seq<(QVec, u8)>, q: QVec) -> bool {
    s.len() <= 5 || exists|t: int| #[trigger] within(s, q, t) == 5
}

/// The positions for which `p` holds.
spec fn places(s: Seq<(QVec, u8)>, p: spec_fn((QVec, u8)) -> bool) -> Set<int> {
    Set::new(|i: int| 0 <= i < s.len() && p(s[i]))
}

proof fn lemma_count_places(s: Seq<(QVec, u8)>, p: spec_fn((QVec, u8)) -> bool)
    ensures
        places(s, p).finite(),
        places(s, p).len() == count_where(s, p),
    decreases s.len(),
{
    if s.len() == 0 {
        assert(places(s, p) =~= Set::empty());
    } else {
        let t = s.drop_last();
        let n = s.len() - 1;
        lemma_count_places(t, p);
        if p(s.last()) {
            assert(places(s, p) =~= places(t, p).insert(n));
        } else {
            assert(places(s, p) =~= places(t, p));
        }
    }
}

proof fn lemma_count_remove(s: Seq<(QVec, u8)>, p: spec_fn((QVec, u8)) -> bool, i: int)
    requires
        0 <= i < s.len(),
    ensures
        count_where(s, p) == count_where(s.remove(i), p) + if p(s[i]) {
            1nat
        } else {
            0
        },
    decreases s.len(),
{
    if i == s.len() - 1 {
        assert(s.remove(i) =~= s.drop_last());
    } else {
        lemma_count_remove(s.drop_last(), p, i);
        assert(s.remove(i).drop_last() =~= s.drop_last().remove(i));
        assert(s.remove(i).last() == s.last());
    }
}

/// A count does not depend on the order.
proof fn lemma_count_perm(
    a: Seq<(QVec, u8)>,
    b: Seq<(QVec, u8)>,
    p: spec_fn((QVec, u8)) -> bool,
)
    requires
        a.to_multiset() == b.to_multiset(),
    ensures
        a.len() == b.len(),
        count_where(a, p) == count_where(b, p),
    decreases a.len(),
{
    broadcast use vstd::seq_lib::group_to_multiset_ensures;

    a.to_multiset_ensures();
    b.to_multiset_ensures();
    if a.len() > 0 {
        let x = a.last();
        assert(a[a.len() - 1] == x);
        assert(a.contains(x));
        assert(a.to_multiset().count(x) > 0);
        assert(b.to_multiset().count(x) > 0);
        assert(b.contains(x));
        let i = choose|i: int| 0 <= i < b.len() && b[i] == x;
        lemma_count_remove(b, p, i);
        assert(a.drop_last() =~= a.remove(a.len() - 1));
        assert(a.drop_last().to_multiset() =~= a.to_multiset().remove(x));
        assert(b.remove(i).to_multiset() =~= b.to_multiset().remove(x));
        lemma_count_perm(a.drop_last(), b.remove(i), p);
    }
}

/// The frauds in a choice, as a set.
proof fn lemma_frauds_of_choice(ix: Index, sel: Seq<int>)
    requires
        sel.no_duplicates(),
    ensures
        ({
            let f = Set::new(|id: int| sel.contains(id) && ix.fraud(id));
            f.finite() && f.len() == ix.frauds(sel)
        }),
    decreases sel.len(),
{
    let f = Set::new(|id: int| sel.contains(id) && ix.fraud(id));
    let flags = Seq::new(sel.len(), |i: int| ix.fraud(sel[i]));
    if sel.len() == 0 {
        assert(f =~= Set::empty());
    } else {
        let t = sel.drop_last();
        let x = sel.last();
        assert(sel[sel.len() - 1] == x);
        assert forall|i: int, j: int| 0 <= i < t.len() && 0 <= j < t.len() && i != j implies t[i]
            != t[j] by {
            assert(sel[i] != sel[j]);
        }
        lemma_frauds_of_choice(ix, t);
        let g = Set::new(|id: int| t.contains(id) && ix.fraud(id));
        assert(flags.drop_last() =~= Seq::new(t.len(), |i: int| ix.fraud(t[i])));
        assert(!t.contains(x)) by {
            if t.contains(x) {
                let i = choose|i: int| 0 <= i < t.len() && t[i] == x;
                assert(sel[i] == sel[sel.len() - 1]);
            }
        }
        assert forall|id: int| sel.contains(id) implies t.contains(id) || id == x by {
            let i = choose|i: int| 0 <= i < sel.len() && sel[i] == id;
            if i < t.len() {
                assert(t[i] == id);
            }
        }
        assert forall|id: int| t.contains(id) implies sel.contains(id) by {
            let i = choose|i: int| 0 <= i < t.len() && t[i] == id;
            assert(sel[i] == id);
        }
        assert(sel.contains(x));
        if ix.fraud(x) {
            assert(f =~= g.insert(x));
        } else {
            assert(f =~= g);
        }
    }
}

/// Where as many vectors lie within `t` as vote, the frauds among them are the votes.
pub proof fn lemma_votes_within(ix: Index, q: QVec, t: int)
    requires
        ix.sound(),
        ix.nodes@.len() == 0 || ix.unlimited(),
        q.in_domain(),
        within(ix.labelled(), q, t) == if ix.count < 5 {
            ix.count as int
        } else {
            5
        },
    ensures
        ix.votes(ix.run(q)) == frauds_within(ix.labelled(), q, t),
{
    exact::law_search_is_exact(ix, q);
    let sel = choose|sel: Seq<int>| #[trigger]
        ix.nearest(q, sel) && ix.votes(ix.run(q)) == ix.frauds(sel);
    let s = ix.labelled();
    let near = |x: (QVec, u8)| exact::squared_distance(q, x.0) <= t;
    let bad = |x: (QVec, u8)| exact::squared_distance(q, x.0) <= t && x.1 != 0;
    let d = places(s, near);
    let e = sel.to_set();
    lemma_count_places(s, near);
    lemma_count_places(s, bad);
    sel.unique_seq_to_set();
    assert(e.len() == d.len());
    assert forall|id: int| d.contains(id) implies e.contains(id) by {
        if !sel.contains(id) {
            assert(s[id] == (ix.vector(id), ix.labels@[id]));
            assert forall|x: int| e.insert(id).contains(x) implies d.contains(x) by {
                if x != id {
                    let i = choose|i: int| 0 <= i < sel.len() && sel[i] == x;
                    assert(s[x] == (ix.vector(x), ix.labels@[x]));
                    assert(exact::squared_distance(q, ix.vector(sel[i]))
                        <= exact::squared_distance(q, ix.vector(id)));
                }
            }
            vstd::set_lib::lemma_len_subset(e.insert(id), d);
        }
    }
    assert(d.subset_of(e));
    vstd::set_lib::lemma_subset_equality(d, e);
    lemma_frauds_of_choice(ix, sel);
    let f = Set::new(|id: int| sel.contains(id) && ix.fraud(id));
    assert forall|id: int| f.contains(id) <==> places(s, bad).contains(id) by {
        if sel.contains(id) {
            assert(e.contains(id));
            assert(d.contains(id));
        }
        if places(s, bad).contains(id) {
            assert(d.contains(id));
            assert(e.contains(id));
        }
    }
    assert(f =~= places(s, bad));
}

/// All vectors lie within the greatest distance.
proof fn lemma_all_within(ix: Index, q: QVec)
    requires
        ix.sound(),
        q.in_domain(),
    ensures
        within(ix.labelled(), q, 2_000_000_000) == ix.count,
        frauds_within(ix.labelled(), q, 2_000_000_000) == frauds_in(ix.labelled()),
{
    let s = ix.labelled();
    let t: int = 2_000_000_000;
    let near = |x: (QVec, u8)| exact::squared_distance(q, x.0) <= t;
    let bad = |x: (QVec, u8)| exact::squared_distance(q, x.0) <= t && x.1 != 0;
    let any = |x: (QVec, u8)| x.1 != 0;
    lemma_count_places(s, near);
    lemma_count_places(s, bad);
    lemma_count_places(s, any);
    assert forall|i: int| 0 <= i < s.len() implies exact::squared_distance(
        q,
        (#[trigger] s[i]).0,
    ) <= t by {
        assert(ix.vector(i).in_domain());
        exact::law_distance_is_euclidean(q, ix.vector(i));
    }
    let all = vstd::set_lib::set_int_range(0, ix.count as int);
    vstd::set_lib::lemma_int_range(0, ix.count as int);
    assert(places(s, near) =~= all);
    assert(places(s, bad) =~= places(s, any));
}

/// The answer depends on the labelled vectors alone: two sound indexes of the same ones, in
/// any order, with any partitions and trees or none, agree on every query for which it is
/// decided which are the nearest.
pub proof fn law_answer_depends_on_the_vectors(a: Index, b: Index, q: QVec)
    requires
        a.sound(),
        b.sound(),
        a.nodes@.len() == 0 || a.unlimited(),
        b.nodes@.len() == 0 || b.unlimited(),
        a.labelled().to_multiset() == b.labelled().to_multiset(),
        q.in_domain(),
        decided(a.labelled(), q),
    ensures
        a.votes(a.run(q)) == b.votes(b.run(q)),
{
    let x = a.labelled();
    let y = b.labelled();
    let t: int = if x.len() <= 5 {
        2_000_000_000
    } else {
        choose|t: int| #[trigger] within(x, q, t) == 5
    };
    lemma_count_perm(x, y, |v: (QVec, u8)| exact::squared_distance(q, v.0) <= t);
    lemma_count_perm(x, y, |v: (QVec, u8)| exact::squared_distance(q, v.0) <= t && v.1 != 0);
    if x.len() <= 5 {
        lemma_all_within(a, q);
    }
    lemma_votes_within(a, q, t);
    lemma_votes_within(b, q, t);
}

/// Up to five vectors all vote, whatever the query: the answer is the number of frauds.
pub proof fn law_few_vectors_all_vote(ix: Index, q: QVec)
    requires
        ix.sound(),
        ix.nodes@.len() == 0 || ix.unlimited(),
        ix.count <= 5,
        q.in_domain(),
    ensures
        ix.votes(ix.run(q)) == frauds_in(ix.labelled()),
        ix.count == 0 ==> ix.votes(ix.run(q)) == 0,
{
    lemma_all_within(ix, q);
    lemma_votes_within(ix, q, 2_000_000_000);
}

} // verus!
