//! The places for connections, and what an event is about.
use crate::client;
use crate::client::{
    Client, Mode, State, EPOLLEND, EPOLLIN, EPOLLRDHUP, TAG_CONTROL, TAG_LISTENER,
};
use vstd::prelude::*;

verus! {

/// The places for connections of a worker that is not told another number.
pub const DEFAULT_CLIENTS: u16 = 1_024;

/// What an event is about.
#[derive(Clone, Copy, PartialEq, Eq, Debug)]
pub enum Subject {
    /// A connection to pass others on can be accepted.
    Listener,
    /// The connection that passes others on has ended.
    ControlEnded,
    /// Connections may be received.
    Control,
    /// The connection in this place has ended.
    Ended(usize),
    /// The connection in this place is to be served.
    Serve(usize),
    /// Nothing that is known.
    Unknown,
}

/// What an event with this mark and these bits is about, with `places` places.
pub open spec fn subject_of(data: u64, bits: u32, places: int) -> Subject {
    let ended = client::has(bits, EPOLLEND);
    if data == TAG_LISTENER {
        Subject::Listener
    } else if data == TAG_CONTROL {
        if ended {
            Subject::ControlEnded
        } else {
            Subject::Control
        }
    } else if data >= places {
        Subject::Unknown
    } else if ended {
        Subject::Ended(data as usize)
    } else {
        Subject::Serve(data as usize)
    }
}

/// What an event is about.
pub fn subject(data: u64, bits: u32, places: usize) -> (r: Subject)
    ensures
        r == subject_of(data, bits, places as int),
{
    let ended: bool = bits & EPOLLEND != 0;
    if data == TAG_LISTENER {
        Subject::Listener
    } else if data == TAG_CONTROL {
        if ended {
            Subject::ControlEnded
        } else {
            Subject::Control
        }
    } else if data >= places as u64 {
        Subject::Unknown
    } else if ended {
        Subject::Ended(data as usize)
    } else {
        Subject::Serve(data as usize)
    }
}

/// Whether connections are to be received on such an event.
pub fn receives(bits: u32) -> (r: bool)
    ensures
        r == client::has(bits, EPOLLIN),
{
    bits & EPOLLIN != 0
}

/// The places, and those of them that are free, the next one last.
pub struct Pool {
    pub clients: Vec<Client>,
    pub free: Vec<u16>,
}

/// A place that no connection has taken.
pub open spec fn vacant() -> State {
    State {
        fd: -1,
        input: Seq::empty(),
        pending: None,
        pending_off: 0,
        last_events: 0,
        mode: Mode::Idle,
        bits: 0,
    }
}

impl Pool {
    /// Every place is whole, and what is free is a place.
    pub open spec fn wf(&self) -> bool {
        &&& self.clients@.len() <= 0x1_0000
        &&& forall|i: int| 0 <= i < self.clients@.len() ==> (#[trigger] self.clients@[i]).wf()
        &&& forall|i: int|
            0 <= i < self.free@.len() ==> (#[trigger] self.free@[i]) < self.clients@.len()
    }

    /// All `n` places are free, and the first one is the next to be taken.
    pub open spec fn fresh(&self, n: u16) -> bool {
        &&& self.clients@.len() == n
        &&& forall|i: int| 0 <= i < n ==> (#[trigger] self.clients@[i])@ == vacant()
        &&& self.free@ == Seq::new(n as nat, |i: int| (n - 1 - i) as u16)
    }

    /// Only place `idx` differs between the two.
    pub open spec fn same_but(&self, after: Pool, idx: u16) -> bool {
        &&& after.clients@.len() == self.clients@.len()
        &&& forall|i: int|
            0 <= i < self.clients@.len() && i != idx ==> #[trigger] after.clients@[i]
                == self.clients@[i]
    }

    /// The next free place is given to the connection `fd`.
    pub open spec fn gives(&self, after: Pool, idx: u16, fd: i32) -> bool {
        &&& self.free@.len() > 0
        &&& idx == self.free@.last()
        &&& after.free@ == self.free@.drop_last()
        &&& self.same_but(after, idx)
        &&& after.clients@[idx as int]@ == (State {
            fd: fd as int,
            last_events: EPOLLIN | EPOLLRDHUP,
            bits: self.clients@[idx as int]@.bits,
            ..vacant()
        })
    }

    /// Place `idx` is free and the next one to be taken.
    pub open spec fn frees(&self, after: Pool, idx: u16) -> bool {
        &&& after.free@ == self.free@.push(idx)
        &&& self.same_but(after, idx)
        &&& after.clients@[idx as int]@ == (State { fd: -1, ..self.clients@[idx as int]@ })
    }

    /// `n` free places. The first one is the next to be taken.
    pub fn new(n: u16) -> (r: Pool)
        ensures
            r.wf(),
            r.fresh(n),
    {
        let mut clients: Vec<Client> = Vec::new();
        let mut free: Vec<u16> = Vec::new();
        let mut i: u16 = 0;
        while i < n
            invariant
                i <= n,
                clients@.len() == i,
                free@.len() == i,
                forall|j: int| 0 <= j < i ==> (#[trigger] clients@[j]).wf(),
                forall|j: int| 0 <= j < i ==> (#[trigger] clients@[j])@ == vacant(),
                forall|j: int| 0 <= j < i ==> #[trigger] free@[j] == n - 1 - j,
            decreases n - i,
        {
            clients.push(Client::new());
            free.push(n - 1 - i);
            i = i + 1;
        }
        let r: Pool = Pool { clients, free };
        assert(r.free@ =~= Seq::new(n as nat, |i: int| (n - 1 - i) as u16));
        r
    }

    /// Gives a place to the connection `fd`; none where all are taken.
    pub fn take_place(&mut self, fd: i32) -> (r: Option<u16>)
        requires
            old(self).wf(),
        ensures
            final(self).wf(),
            match r {
                Some(idx) => old(self).gives(*final(self), idx, fd),
                None => old(self).free@.len() == 0 && *final(self) == *old(self),
            },
    {
        if self.free.len() == 0 {
            return None;
        }
        match self.free.pop() {
            Some(idx) => {
                self.clients[idx as usize].open(fd);
                Some(idx)
            },
            None => None,
        }
    }

    /// Frees place `idx`. Returns the connection that is to be closed, if there is one.
    pub fn drop_client(&mut self, idx: usize) -> (r: Option<i32>)
        requires
            old(self).wf(),
            idx < old(self).clients@.len(),
        ensures
            final(self).wf(),
            old(self).frees(*final(self), idx as u16),
            r == (if old(self).clients@[idx as int].fd >= 0 {
                Some(old(self).clients@[idx as int].fd)
            } else {
                None
            }),
    {
        let fd: Option<i32> = self.clients[idx].close();
        self.free.push(idx as u16);
        fd
    }

    /// No place is free twice, and a place is free exactly if no connection has it.
    pub open spec fn settled(&self) -> bool {
        &&& self.free@.no_duplicates()
        &&& forall|i: int|
            0 <= i < self.clients@.len() ==> (self.free@.contains(i as u16) <==> (
            #[trigger] self.clients@[i]).fd < 0)
    }
}

/// A fresh pool is settled.
pub proof fn law_fresh_pool_is_settled(p: Pool, n: u16)
    requires
        p.fresh(n),
    ensures
        p.settled(),
{
    assert forall|i: int| 0 <= i < n implies (p.free@.contains(i as u16) <==> (
    #[trigger] p.clients@[i]).fd < 0) by {
        assert(p.clients@[i]@ == vacant());
        assert(p.free@[n - 1 - i] == i as u16);
    }
}

/// Taking a place for a connection keeps the pool settled, and the place that is taken is in
/// no other's hands: it was free and is not free any more.
pub proof fn law_taking_a_free_place(before: Pool, after: Pool, idx: u16, fd: i32)
    requires
        before.wf(),
        before.settled(),
        before.gives(after, idx, fd),
        fd >= 0,
    ensures
        after.settled(),
        before.clients@[idx as int].fd < 0,
        !after.free@.contains(idx),
{
    let last = before.free@.len() - 1;
    assert(before.free@[last] == idx);
    assert(before.free@.contains(idx));
    assert(before.clients@[idx as int].fd < 0);
    assert forall|i: int, j: int|
        0 <= i < after.free@.len() && 0 <= j < after.free@.len() && i != j implies after.free@[i]
        != after.free@[j] by {
        assert(before.free@[i] != before.free@[j]);
    }
    assert forall|i: int| 0 <= i < after.free@.len() implies #[trigger] after.free@[i] != idx by {
        assert(after.free@[i] == before.free@[i]);
        assert(before.free@[i] != before.free@[last]);
    }
    assert(after.clients@[idx as int]@.fd == fd);
    assert forall|i: int| 0 <= i < after.clients@.len() implies (after.free@.contains(i as u16) <==> (
    #[trigger] after.clients@[i]).fd < 0) by {
        if i != idx {
            assert(after.clients@[i] == before.clients@[i]);
            if before.free@.contains(i as u16) {
                let j = choose|j: int| 0 <= j < before.free@.len() && before.free@[j] == i as u16;
                assert(j != last);
                assert(after.free@[j] == i as u16);
            }
            if after.free@.contains(i as u16) {
                let j = choose|j: int| 0 <= j < after.free@.len() && after.free@[j] == i as u16;
                assert(before.free@[j] == i as u16);
            }
        }
    }
}

/// Freeing a place that a connection has keeps the pool settled.
pub proof fn law_dropping_frees_the_place(before: Pool, after: Pool, idx: u16)
    requires
        before.wf(),
        before.settled(),
        idx < before.clients@.len(),
        before.clients@[idx as int].fd >= 0,
        before.frees(after, idx),
    ensures
        after.settled(),
        after.free@.last() == idx,
{
    let n = before.free@.len() as int;
    assert(after.clients@[idx as int]@.fd == -1);
    assert(!before.free@.contains(idx));
    assert(after.free@[n] == idx);
    assert forall|i: int, j: int|
        0 <= i < after.free@.len() && 0 <= j < after.free@.len() && i != j implies after.free@[i]
        != after.free@[j] by {
        if i < n {
            assert(after.free@[i] == before.free@[i]);
            assert(before.free@.contains(before.free@[i]));
        }
        if j < n {
            assert(after.free@[j] == before.free@[j]);
            assert(before.free@.contains(before.free@[j]));
        }
    }
    assert forall|i: int| 0 <= i < after.clients@.len() implies (after.free@.contains(i as u16) <==> (
    #[trigger] after.clients@[i]).fd < 0) by {
        if i == idx {
            assert(after.free@.contains(idx));
        } else {
            assert(after.clients@[i] == before.clients@[i]);
            if before.free@.contains(i as u16) {
                let j = choose|j: int| 0 <= j < before.free@.len() && before.free@[j] == i as u16;
                assert(after.free@[j] == i as u16);
            }
            if after.free@.contains(i as u16) {
                let j = choose|j: int| 0 <= j < after.free@.len() && after.free@[j] == i as u16;
                assert(j < n);
                assert(before.free@[j] == i as u16);
            }
        }
    }
}

} // verus!
