//! Which backend a connection goes to, and how long to wait for one that is not there.
use vstd::prelude::*;

verus! {

/// The backends in turn.
#[derive(Clone, Copy)]
pub struct RoundRobin {
    pub backends: usize,
    /// The backend that the next connection is offered first.
    pub next: usize,
}

/// The backend `k` places behind `i`.
pub open spec fn behind(i: int, k: int, n: int) -> int {
    (i + k) % n
}

impl RoundRobin {
    pub open spec fn wf(self) -> bool {
        self.next < self.backends
    }

    pub fn new(backends: usize) -> (r: RoundRobin)
        requires
            backends > 0,
        ensures
            r.wf(),
            r.backends == backends,
            r.next == 0,
    {
        RoundRobin { backends, next: 0 }
    }

    /// The backend that the next connection is offered first.
    pub fn turn(&mut self) -> (r: usize)
        requires
            old(self).wf(),
        ensures
            final(self).wf(),
            r == old(self).next,
            final(self).backends == old(self).backends,
            final(self).next == behind(r as int, 1, old(self).backends as int),
    {
        let r: usize = self.next;
        self.next = self.next + 1;
        if self.next == self.backends {
            self.next = 0;
        }
        proof {
            lemma_step(r as int, self.backends as int);
        }
        r
    }

    /// The backend to offer a connection after `idx` has failed; none once all have been tried,
    /// from `start` on.
    pub fn after_failure(&self, idx: usize, start: usize) -> (r: Option<usize>)
        requires
            self.wf(),
            idx < self.backends,
        ensures
            ({
                let n = behind(idx as int, 1, self.backends as int);
                r == (if n == start {
                    None
                } else {
                    Some(n as usize)
                })
            }),
    {
        let mut n: usize = idx + 1;
        if n == self.backends {
            n = 0;
        }
        proof {
            lemma_step(idx as int, self.backends as int);
        }
        if n == start {
            None
        } else {
            Some(n)
        }
    }
}

pub proof fn lemma_step(i: int, n: int)
    requires
        0 <= i < n,
    ensures
        behind(i, 1, n) == if i + 1 == n {
            0
        } else {
            i + 1
        },
{
    if i + 1 == n {
        vstd::arithmetic::div_mod::lemma_mod_self_0(n);
    } else {
        vstd::arithmetic::div_mod::lemma_small_mod((i + 1) as nat, n as nat);
    }
}

/// The backend that is offered after `k` turns or failures.
pub open spec fn stepped(i: int, k: nat, n: int) -> int
    decreases k,
{
    if k == 0 {
        i
    } else {
        behind(stepped(i, (k - 1) as nat, n), 1, n)
    }
}

/// The turns go round: the `k`-th connection after one that was offered to `i` is offered to
/// the backend `k` places behind it.
pub proof fn law_turns_go_round(i: int, k: nat, n: int)
    requires
        0 <= i < n,
    ensures
        stepped(i, k, n) == behind(i, k as int, n),
    decreases k,
{
    if k == 0 {
        vstd::arithmetic::div_mod::lemma_small_mod(i as nat, n as nat);
    } else {
        law_turns_go_round(i, (k - 1) as nat, n);
        vstd::arithmetic::div_mod::lemma_add_mod_noop_right(1, i + k - 1, n);
    }
}

proof fn lemma_round(i: int, k: int, n: int)
    requires
        0 <= i < n,
        0 <= k < n,
    ensures
        behind(i, k, n) == if i + k < n {
            i + k
        } else {
            i + k - n
        },
{
    if i + k < n {
        vstd::arithmetic::div_mod::lemma_small_mod((i + k) as nat, n as nat);
    } else {
        vstd::arithmetic::div_mod::lemma_mod_add_multiples_vanish(i + k - n, n);
        vstd::arithmetic::div_mod::lemma_small_mod((i + k - n) as nat, n as nat);
    }
}

/// Every backend is tried once before a connection is given up: the first `n` tries are all
/// different, each backend is among them, and the one after them is the first again.
pub proof fn law_every_backend_is_tried_once(start: int, n: int)
    requires
        0 <= start < n,
    ensures
        forall|j: int, k: int|
            0 <= j < k < n ==> #[trigger] behind(start, j, n) != #[trigger] behind(start, k, n),
        forall|b: int| 0 <= b < n ==> tried(start, b, n),
        behind(start, n, n) == start,
{
    assert forall|j: int, k: int| 0 <= j < k < n implies #[trigger] behind(start, j, n)
        != #[trigger] behind(start, k, n) by {
        lemma_round(start, j, n);
        lemma_round(start, k, n);
    }
    assert forall|b: int| 0 <= b < n implies tried(start, b, n) by {
        let k = if b >= start {
            b - start
        } else {
            b - start + n
        };
        lemma_round(start, k, n);
        assert(behind(start, k, n) == b);
    }
    vstd::arithmetic::div_mod::lemma_mod_add_multiples_vanish(start, n);
    vstd::arithmetic::div_mod::lemma_small_mod(start as nat, n as nat);
}

/// Backend `b` is one of the `n` that are tried from `start` on.
pub open spec fn tried(start: int, b: int, n: int) -> bool {
    exists|k: int| 0 <= k < n && #[trigger] behind(start, k, n) == b
}

/// How to wait before the next attempt to connect.
#[derive(Clone, Copy, PartialEq, Eq, Structural, Debug)]
pub enum Wait {
    Spin,
    Yield,
    /// Sleep for a millisecond.
    Sleep,
}

/// The number of attempts, after one more.
pub fn count_attempt(attempts: u32) -> (r: u32)
    ensures
        r == (if attempts == u32::MAX {
            attempts as int
        } else {
            attempts + 1
        }),
{
    attempts.saturating_add(1)
}

/// How to wait after so many failed attempts.
pub fn backoff(attempts: u32) -> (r: Wait)
    ensures
        r == (if attempts < 100 {
            Wait::Spin
        } else if attempts < 10_000 {
            Wait::Yield
        } else {
            Wait::Sleep
        }),
{
    if attempts < 100 {
        Wait::Spin
    } else if attempts < 10_000 {
        Wait::Yield
    } else {
        Wait::Sleep
    }
}

} // verus!
