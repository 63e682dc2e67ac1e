//! The five nearest neighbours found so far.
use vstd::prelude::*;

verus! {

/// Number of neighbours that vote.
pub const K: usize = 5;

/// One past the last of the first `n` entries that is at most `d`: where `d` goes so that
/// it stands behind its equals.
pub open spec fn slot(dists: Seq<int>, d: int, n: nat) -> nat
    decreases n,
{
    if n == 0 {
        0
    } else if dists[n - 1] > d {
        slot(dists, d, (n - 1) as nat)
    } else {
        n
    }
}

/// `s` with `x` put in at `p`, and the last entry dropped.
pub open spec fn placed<T>(s: Seq<T>, p: int, x: T) -> Seq<T> {
    s.insert(p, x).take(5)
}

/// The number of entries that are set.
pub open spec fn count_set(s: Seq<bool>) -> nat
    decreases s.len(),
{
    if s.len() == 0 {
        0
    } else {
        count_set(s.drop_last()) + if s.last() {
            1nat
        } else {
            0
        }
    }
}

pub proof fn lemma_slot_bound(dists: Seq<int>, d: int, n: nat)
    ensures
        slot(dists, d, n) <= n,
    decreases n,
{
    if n > 0 {
        lemma_slot_bound(dists, d, (n - 1) as nat);
    }
}

pub proof fn lemma_count_set_bound(s: Seq<bool>)
    ensures
        count_set(s) <= s.len(),
    decreases s.len(),
{
    if s.len() > 0 {
        lemma_count_set_bound(s.drop_last());
    }
}

/// Distances in ascending order, each with the label of its vector.
pub struct Top5 {
    pub dists: [i32; K],
    pub fraud: [bool; K],
}

impl Top5 {
    pub open spec fn dist_seq(self) -> Seq<int> {
        Seq::new(5, |i: int| self.dists@[i] as int)
    }

    /// Nothing found yet: every place holds the largest distance.
    pub fn new() -> (r: Top5)
        ensures
            forall|i: int| 0 <= i < 5 ==> r.dists@[i] == i32::MAX && r.fraud@[i] == false,
    {
        Top5 { dists: [i32::MAX; K], fraud: [false; K] }
    }

    /// The distance that a newcomer has to beat.
    pub fn worst(&self) -> (r: i32)
        ensures
            r == self.dists@[4],
    {
        self.dists[K - 1]
    }

    /// Takes a neighbour in, behind those that are as near, if it is nearer than the worst.
    pub fn try_insert(&mut self, dist: i32, is_fraud: bool)
        ensures
            dist >= old(self).dists@[4] ==> *final(self) == *old(self),
            dist < old(self).dists@[4] ==> {
                let p = slot(old(self).dist_seq(), dist as int, 4) as int;
                &&& final(self).dists@ == placed(old(self).dists@, p, dist)
                &&& final(self).fraud@ == placed(old(self).fraud@, p, is_fraud)
            },
    {
        if dist >= self.dists[K - 1] {
            return;
        }
        let ghost d0 = self.dists@;
        let ghost f0 = self.fraud@;
        let ghost p = slot(old(self).dist_seq(), dist as int, 4);
        let mut i: usize = K - 1;
        proof {
            lemma_slot_bound(old(self).dist_seq(), dist as int, 4);
        }
        while i > 0 && self.dists[i - 1] > dist
            invariant
                p <= i <= 4,
                d0 == old(self).dists@,
                f0 == old(self).fraud@,
                p == slot(old(self).dist_seq(), dist as int, i as nat),
                forall|j: int| 0 <= j <= i ==> self.dists@[j] == d0[j],
                forall|j: int| 0 <= j <= i ==> self.fraud@[j] == f0[j],
                forall|j: int| i < j < 5 ==> self.dists@[j] == d0[j - 1],
                forall|j: int| i < j < 5 ==> self.fraud@[j] == f0[j - 1],
            ensures
                i == p,
            decreases i,
        {
            self.dists[i] = self.dists[i - 1];
            self.fraud[i] = self.fraud[i - 1];
            i = i - 1;
            proof {
                lemma_slot_bound(old(self).dist_seq(), dist as int, i as nat);
            }
        }
        self.dists[i] = dist;
        self.fraud[i] = is_fraud;
        assert(self.dists@ =~= placed(d0, p as int, dist));
        assert(self.fraud@ =~= placed(f0, p as int, is_fraud));
    }

    /// How many of the five are fraud.
    pub fn fraud_count(&self) -> (r: u32)
        ensures
            r == count_set(self.fraud@),
            r <= 5,
    {
        let mut c: u32 = 0;
        let mut i: usize = 0;
        while i < K
            invariant
                i <= K,
                c <= i,
                c == count_set(self.fraud@.take(i as int)),
            decreases K - i,
        {
            assert(self.fraud@.take(i + 1).drop_last() =~= self.fraud@.take(i as int));
            if self.fraud[i] {
                c = c + 1;
            }
            i = i + 1;
        }
        assert(self.fraud@.take(5) =~= self.fraud@);
        c
    }
}

} // verus!
