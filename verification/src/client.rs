//! One connection: what it has received, what it still has to send, and what to do next.
//!
//! The connection itself does not read or write. It says what is to be done, and is told
//! what came of it.
use crate::http;
use crate::http::request_total;
use vstd::prelude::*;

verus! {

/// The most bytes that are kept of what a client has sent.
pub const BUF_CAP: usize = 4_096;

pub const EPOLLIN: u32 = 0x001;

pub const EPOLLOUT: u32 = 0x004;

pub const EPOLLERR: u32 = 0x008;

pub const EPOLLHUP: u32 = 0x010;

pub const EPOLLRDHUP: u32 = 0x2000;

/// The bits that end a connection.
pub const EPOLLEND: u32 = 0x2018;

/// The mark of the listening socket.
pub const TAG_LISTENER: u64 = 0x8000_0000_0000_0000;

/// The mark of the socket that connections arrive on.
pub const TAG_CONTROL: u64 = 0xC000_0000_0000_0000;

/// The bit `flag` is set.
pub open spec fn has(bits: u32, flag: u32) -> bool {
    bits & flag != 0
}

/// What a connection is doing.
#[derive(Clone, Copy)]
pub enum Mode {
    /// Waiting for an event.
    Idle,
    /// Sending the rest of an earlier response.
    Flushing,
    /// Receiving.
    Reading,
    /// A request is waiting for its response.
    Answering,
    /// Sending a response.
    Sending,
}

/// What is to be done for a connection.
#[derive(Clone, Copy, PartialEq, Eq, Debug)]
pub enum Action {
    /// Read at most this many bytes.
    Read(usize),
    /// Write what is unsent.
    Write,
    /// Answer the request of this length, whose body starts here.
    Answer(usize, usize),
    /// Wait for the next event.
    Keep,
    /// Close the connection.
    Drop,
}

/// What came of a read.
pub enum Received<'a> {
    /// These bytes. No bytes are the end of the connection.
    Data(&'a [u8]),
    /// Nothing: the read is to be repeated.
    Interrupted,
    /// Nothing more for now.
    WouldBlock,
    /// An error.
    Failed,
}

/// What came of a write.
#[derive(Clone, Copy)]
pub enum Written {
    /// So many bytes were taken.
    Count(usize),
    /// None can be taken for now.
    Blocked,
    /// An error.
    Failed,
}

pub struct Client {
    pub fd: i32,
    pub buf: Vec<u8>,
    pub pending: Option<Vec<u8>>,
    pub pending_off: usize,
    pub last_events: u32,
    pub mode: Mode,
    pub bits: u32,
}

/// What is known of a connection.
#[verifier::ext_equal]
pub struct State {
    pub fd: int,
    /// What was received and not answered yet.
    pub input: Seq<u8>,
    /// The response that is being sent.
    pub pending: Option<Seq<u8>>,
    /// How much of it was sent.
    pub pending_off: int,
    pub last_events: u32,
    pub mode: Mode,
    /// The events that are being handled.
    pub bits: u32,
}

impl State {
    /// What is left of the response that is being sent.
    pub open spec fn unsent(self) -> Seq<u8> {
        self.pending->0.skip(self.pending_off)
    }

    /// Nothing is being sent.
    pub open spec fn silent(self) -> State {
        State { pending: None, pending_off: 0, ..self }
    }

    /// More is read, unless there is no space left.
    pub open spec fn read_more(self) -> (State, Action) {
        if self.input.len() >= BUF_CAP {
            (self, Action::Drop)
        } else {
            (
                State { mode: Mode::Reading, ..self },
                Action::Read((BUF_CAP - self.input.len()) as usize),
            )
        }
    }

    /// The next request is answered if it is complete.
    pub open spec fn next_request(self) -> (State, Action) {
        match http::request_frame(self.input) {
            Some((total, body_start)) => if total <= self.input.len() {
                (
                    State { mode: Mode::Answering, ..self },
                    Action::Answer(total as usize, body_start as usize),
                )
            } else {
                (State { mode: Mode::Idle, ..self }, Action::Keep)
            },
            None => (State { mode: Mode::Idle, ..self }, Action::Keep),
        }
    }

    /// With nothing left to send, what can be read is read.
    pub open spec fn serve(self) -> (State, Action) {
        if has(self.bits, EPOLLIN) {
            self.read_more()
        } else {
            self.next_request()
        }
    }

    /// An event: what is unsent goes first.
    pub open spec fn begin(self, bits: u32) -> (State, Action) {
        let s = State { bits, ..self };
        if s.pending is Some {
            if has(bits, EPOLLOUT) {
                (State { mode: Mode::Flushing, ..s }, Action::Write)
            } else {
                (State { mode: Mode::Idle, ..s }, Action::Keep)
            }
        } else {
            State { mode: Mode::Idle, ..s }.serve()
        }
    }

    /// Bytes were received.
    pub open spec fn receive(self, data: Seq<u8>) -> (State, Action) {
        if data.len() == 0 {
            (self, Action::Drop)
        } else {
            State { input: self.input + data, ..self }.read_more()
        }
    }

    /// The response to the request of length `total` is `response`.
    pub open spec fn answer(self, total: int, response: Seq<u8>) -> (State, Action) {
        let input = if total >= self.input.len() {
            Seq::empty()
        } else {
            self.input.skip(total)
        };
        let s = State { input, mode: Mode::Idle, ..self };
        if response.len() == 0 {
            s.next_request()
        } else {
            (
                State { pending: Some(response), pending_off: 0, mode: Mode::Sending, ..s },
                Action::Write,
            )
        }
    }

    /// Nothing is left to send.
    pub open spec fn sent(self) -> (State, Action) {
        let s = State { mode: Mode::Idle, ..self.silent() };
        if self.mode is Flushing {
            s.serve()
        } else {
            s.next_request()
        }
    }

    /// What is unsent cannot be sent: an earlier response ends the connection, a new one is
    /// given up.
    pub open spec fn unsendable(self) -> (State, Action) {
        if self.mode is Flushing {
            (self, Action::Drop)
        } else {
            (State { mode: Mode::Idle, ..self.silent() }, Action::Keep)
        }
    }

    /// `n` bytes were sent.
    pub open spec fn send(self, n: int) -> (State, Action) {
        if n == 0 {
            self.unsendable()
        } else if n >= self.unsent().len() {
            self.sent()
        } else {
            (State { pending_off: self.pending_off + n, ..self }, Action::Write)
        }
    }

    /// What came of a write.
    pub open spec fn write_result(self, w: Written) -> (State, Action) {
        match w {
            Written::Count(n) => self.send(n as int),
            Written::Blocked => (State { mode: Mode::Idle, ..self }, Action::Keep),
            Written::Failed => self.unsendable(),
        }
    }
}

impl View for Client {
    type V = State;

    open spec fn view(&self) -> State {
        State {
            fd: self.fd as int,
            input: self.buf@,
            pending: match self.pending {
                Some(p) => Some(p@),
                None => None,
            },
            pending_off: self.pending_off as int,
            last_events: self.last_events,
            mode: self.mode,
            bits: self.bits,
        }
    }
}

impl Client {
    /// The buffers are in bounds, and what is being sent is there.
    pub open spec fn wf(&self) -> bool {
        &&& self.buf@.len() <= BUF_CAP
        &&& self.pending matches Some(p) ==> self.pending_off <= p@.len()
        &&& self.pending is None ==> self.pending_off == 0
        &&& self.mode is Flushing || self.mode is Sending ==> self.pending is Some
    }

    /// A place for a connection.
    pub fn new() -> (r: Client)
        ensures
            r.wf(),
            r@ == (State {
                fd: -1,
                input: Seq::empty(),
                pending: None,
                pending_off: 0,
                last_events: 0,
                mode: Mode::Idle,
                bits: 0,
            }),
    {
        let r: Client = Client {
            fd: -1,
            buf: Vec::new(),
            pending: None,
            pending_off: 0,
            last_events: 0,
            mode: Mode::Idle,
            bits: 0,
        };
        assert(r@.input =~= Seq::<u8>::empty());
        r
    }

    /// The place is taken by the connection `fd`.
    pub fn open(&mut self, fd: i32)
        ensures
            final(self).wf(),
            final(self).pending_off == 0,
            final(self)@ == (State {
                fd: fd as int,
                input: Seq::empty(),
                pending: None,
                pending_off: 0,
                last_events: EPOLLIN | EPOLLRDHUP,
                mode: Mode::Idle,
                bits: old(self)@.bits,
            }),
    {
        self.fd = fd;
        self.buf.clear();
        self.pending = None;
        self.pending_off = 0;
        self.last_events = EPOLLIN | EPOLLRDHUP;
        self.mode = Mode::Idle;
    }

    /// The place is free again. Returns the connection that was there, if there was one.
    pub fn close(&mut self) -> (r: Option<i32>)
        requires
            old(self).wf(),
        ensures
            final(self).wf(),
            final(self)@ == (State { fd: -1, ..old(self)@ }),
            r == (if old(self).fd >= 0 {
                Some(old(self).fd)
            } else {
                None
            }),
    {
        let fd: i32 = self.fd;
        self.fd = -1;
        if fd >= 0 {
            Some(fd)
        } else {
            None
        }
    }

    /// The events that a connection waits for.
    pub fn client_events(&self) -> (r: u32)
        ensures
            r == (if self@.pending is Some {
                EPOLLIN | EPOLLRDHUP | EPOLLOUT
            } else {
                EPOLLIN | EPOLLRDHUP
            }),
    {
        let mut ev: u32 = EPOLLIN | EPOLLRDHUP;
        if self.pending.is_some() {
            ev = ev | EPOLLOUT;
        }
        ev
    }

    /// The events that a connection waits for, if they are not those it waited for before.
    pub fn changed_events(&mut self) -> (r: Option<u32>)
        requires
            old(self).wf(),
        ensures
            final(self).wf(),
            ({
                let ev = if old(self)@.pending is Some {
                    EPOLLIN | EPOLLRDHUP | EPOLLOUT
                } else {
                    EPOLLIN | EPOLLRDHUP
                };
                &&& final(self)@ == (State { last_events: ev, ..old(self)@ })
                &&& r == (if ev == old(self)@.last_events {
                    None
                } else {
                    Some(ev)
                })
            }),
    {
        let ev: u32 = self.client_events();
        if ev == self.last_events {
            None
        } else {
            self.last_events = ev;
            Some(ev)
        }
    }

    /// The first `total` bytes that were received.
    pub fn request(&self, total: usize) -> (r: &[u8])
        requires
            total <= self@.input.len(),
        ensures
            r@ == self@.input.take(total as int),
    {
        let r: &[u8] = &self.buf.as_slice()[0..total];
        assert(r@ =~= self@.input.take(total as int));
        r
    }

    /// What is still to be sent.
    pub fn unsent(&self) -> (r: &[u8])
        requires
            self.wf(),
            self@.pending is Some,
        ensures
            r@ == self@.unsent(),
    {
        match &self.pending {
            Some(p) => {
                let r: &[u8] = &p.as_slice()[self.pending_off..p.len()];
                assert(r@ =~= self@.unsent());
                r
            },
            None => self.buf.as_slice(),
        }
    }

    /// Forgets the first `consumed` bytes that were received.
    pub fn compact(&mut self, consumed: usize)
        requires
            old(self).wf(),
        ensures
            final(self).wf(),
            final(self)@ == (State {
                input: if consumed >= old(self)@.input.len() {
                    Seq::empty()
                } else {
                    old(self)@.input.skip(consumed as int)
                },
                ..old(self)@
            }),
    {
        let ghost before = self.buf@;
        let len: usize = self.buf.len();
        if consumed >= len {
            self.buf.clear();
            return;
        }
        let mut rest: Vec<u8> = Vec::new();
        crate::bytes::write_bytes(&mut rest, &self.buf.as_slice()[consumed..len]);
        assert(rest@ =~= before.skip(consumed as int));
        self.buf = rest;
    }

    fn read_more(&mut self) -> (r: Action)
        requires
            old(self).wf(),
        ensures
            final(self).wf(),
            (final(self)@, r) == old(self)@.read_more(),
    {
        if self.buf.len() >= BUF_CAP {
            return Action::Drop;
        }
        self.mode = Mode::Reading;
        Action::Read(BUF_CAP - self.buf.len())
    }

    fn next_request(&mut self) -> (r: Action)
        requires
            old(self).wf(),
        ensures
            final(self).wf(),
            (final(self)@, r) == old(self)@.next_request(),
    {
        match request_total(self.buf.as_slice()) {
            Some((total, body_start)) => if total <= self.buf.len() {
                self.mode = Mode::Answering;
                Action::Answer(total, body_start)
            } else {
                self.mode = Mode::Idle;
                Action::Keep
            },
            None => {
                self.mode = Mode::Idle;
                Action::Keep
            },
        }
    }

    fn serve(&mut self) -> (r: Action)
        requires
            old(self).wf(),
        ensures
            final(self).wf(),
            (final(self)@, r) == old(self)@.serve(),
    {
        if self.bits & EPOLLIN != 0 {
            self.read_more()
        } else {
            self.next_request()
        }
    }

    /// Takes up an event. Returns what is to be done first.
    pub fn begin(&mut self, bits: u32) -> (r: Action)
        requires
            old(self).wf(),
        ensures
            final(self).wf(),
            (final(self)@, r) == old(self)@.begin(bits),
    {
        self.bits = bits;
        if self.pending.is_some() {
            if bits & EPOLLOUT != 0 {
                self.mode = Mode::Flushing;
                Action::Write
            } else {
                self.mode = Mode::Idle;
                Action::Keep
            }
        } else {
            self.mode = Mode::Idle;
            self.serve()
        }
    }

    /// Takes what came of a read. Returns what is to be done next.
    pub fn after_read(&mut self, outcome: Received) -> (r: Action)
        requires
            old(self).wf(),
            outcome matches Received::Data(data) ==> old(self)@.input.len() + data@.len()
                <= BUF_CAP,
        ensures
            final(self).wf(),
            (final(self)@, r) == match outcome {
                Received::Data(data) => old(self)@.receive(data@),
                Received::Interrupted => old(self)@.read_more(),
                Received::WouldBlock => old(self)@.next_request(),
                Received::Failed => (old(self)@, Action::Drop),
            },
    {
        match outcome {
            Received::Data(data) => {
                if data.len() == 0 {
                    return Action::Drop;
                }
                crate::bytes::write_bytes(&mut self.buf, data);
                self.read_more()
            },
            Received::Interrupted => self.read_more(),
            Received::WouldBlock => self.next_request(),
            Received::Failed => Action::Drop,
        }
    }

    /// Takes the response to a request of length `total`. Returns what is to be done next.
    pub fn answer(&mut self, total: usize, response: Vec<u8>) -> (r: Action)
        requires
            old(self).wf(),
            old(self)@.pending is None,
        ensures
            final(self).wf(),
            (final(self)@, r) == old(self)@.answer(total as int, response@),
    {
        self.mode = Mode::Idle;
        self.compact(total);
        if response.len() == 0 {
            return self.next_request();
        }
        self.pending = Some(response);
        self.pending_off = 0;
        self.mode = Mode::Sending;
        Action::Write
    }

    /// Takes what came of a write. Returns what is to be done next.
    pub fn after_write(&mut self, outcome: Written) -> (r: Action)
        requires
            old(self).wf(),
            old(self)@.pending is Some,
        ensures
            final(self).wf(),
            (final(self)@, r) == old(self)@.write_result(outcome),
    {
        match outcome {
            Written::Count(n) => {
                let size: usize = match &self.pending {
                    Some(p) => p.len(),
                    None => 0,
                };
                let left: usize = size - self.pending_off;
                if n == 0 {
                    return self.unsendable();
                }
                if n >= left {
                    let flushing: bool = matches!(self.mode, Mode::Flushing);
                    self.mode = Mode::Idle;
                    self.pending = None;
                    self.pending_off = 0;
                    if flushing {
                        self.serve()
                    } else {
                        self.next_request()
                    }
                } else {
                    self.pending_off = self.pending_off + n;
                    Action::Write
                }
            },
            Written::Blocked => {
                self.mode = Mode::Idle;
                Action::Keep
            },
            Written::Failed => self.unsendable(),
        }
    }

    fn unsendable(&mut self) -> (r: Action)
        requires
            old(self).wf(),
        ensures
            final(self).wf(),
            (final(self)@, r) == old(self)@.unsendable(),
    {
        if matches!(self.mode, Mode::Flushing) {
            Action::Drop
        } else {
            self.mode = Mode::Idle;
            self.pending = None;
            self.pending_off = 0;
            Action::Keep
        }
    }
}

/// While a response is not sent whole, an event leads to no other request: responses leave
/// in the order of their requests.
pub proof fn law_responses_keep_their_order(s: State, bits: u32)
    requires
        s.pending is Some,
    ensures
        s.begin(bits).1 is Write || s.begin(bits).1 is Keep,
        s.begin(bits).0.pending == s.pending,
        s.begin(bits).0.pending_off == s.pending_off,
        s.begin(bits).0.input == s.input,
{
}

impl State {
    /// The bytes that a write takes.
    pub open spec fn taken(self, w: Written) -> Seq<u8> {
        if self.pending is None {
            Seq::empty()
        } else {
            match w {
                Written::Count(n) => if n >= self.unsent().len() {
                    self.unsent()
                } else {
                    self.unsent().take(n as int)
                },
                _ => Seq::empty(),
            }
        }
    }

    /// The connection after a write and, where that left something to send, after the next
    /// event on which it can be sent.
    pub open spec fn resumed(self, w: Written, bits: u32) -> State {
        if self.pending is None {
            self
        } else {
            let (s, a) = self.write_result(w);
            if a is Keep && s.pending is Some {
                s.begin(bits).0
            } else {
                s
            }
        }
    }

    /// The bytes that a series of writes takes from the pending response, with the events
    /// between them.
    pub open spec fn taken_by(self, writes: Seq<(Written, u32)>) -> Seq<u8>
        decreases writes.len(),
    {
        if writes.len() == 0 {
            Seq::empty()
        } else {
            self.taken(writes[0].0) + self.resumed(writes[0].0, writes[0].1).taken_by(
                writes.skip(1),
            )
        }
    }

    /// The connection after a series of writes.
    pub open spec fn after(self, writes: Seq<(Written, u32)>) -> State
        decreases writes.len(),
    {
        if writes.len() == 0 {
            self
        } else {
            self.resumed(writes[0].0, writes[0].1).after(writes.skip(1))
        }
    }
}

/// A write goes on: it takes something, or is blocked and can be taken up again.
pub open spec fn goes_on(w: (Written, u32)) -> bool {
    has(w.1, EPOLLOUT) && match w.0 {
        Written::Count(n) => n > 0,
        Written::Blocked => true,
        Written::Failed => false,
    }
}

proof fn lemma_nothing_taken(s: State, writes: Seq<(Written, u32)>)
    requires
        s.pending is None,
    ensures
        s.taken_by(writes) == Seq::<u8>::empty(),
        s.after(writes) == s,
    decreases writes.len(),
{
    if writes.len() > 0 {
        lemma_nothing_taken(s, writes.skip(1));
        assert(s.taken_by(writes) =~= Seq::<u8>::empty());
    }
}

/// All writes of a response together are the response: however often they are partial or
/// blocked, what they took is what was sent of it, without a gap and without a repetition.
/// Once nothing is pending, all of it was taken; before that, the response stays pending and
/// the offset says how much was.
pub proof fn law_writes_make_up_the_response(s: State, writes: Seq<(Written, u32)>)
    requires
        s.pending is Some,
        s.mode is Sending || s.mode is Flushing,
        0 <= s.pending_off <= s.pending->0.len(),
        forall|i: int| 0 <= i < writes.len() ==> goes_on(#[trigger] writes[i]),
    ensures
        s.after(writes).pending is None ==> {
            &&& s.taken_by(writes) == s.pending->0.skip(s.pending_off)
            &&& s.after(writes).pending_off == 0
        },
        s.after(writes).pending is Some ==> {
            &&& s.after(writes).pending == s.pending
            &&& s.pending_off <= s.after(writes).pending_off <= s.pending->0.len()
            &&& s.taken_by(writes) == s.pending->0.subrange(
                s.pending_off,
                s.after(writes).pending_off,
            )
        },
    decreases writes.len(),
{
    let resp = s.pending->0;
    if writes.len() == 0 {
        assert(resp.subrange(s.pending_off, s.pending_off) =~= Seq::<u8>::empty());
    } else {
        let (w, bits) = writes[0];
        assert(goes_on(writes[0]));
        let t = s.resumed(w, bits);
        let rest = writes.skip(1);
        assert forall|i: int| 0 <= i < rest.len() implies goes_on(#[trigger] rest[i]) by {
            assert(rest[i] == writes[i + 1]);
        }
        if t.pending is None {
            lemma_nothing_taken(t, rest);
            assert(s.taken_by(writes) =~= s.taken(w));
        } else {
            law_writes_make_up_the_response(t, rest);
            assert(s.taken(w) =~= resp.subrange(s.pending_off, t.pending_off));
            if t.after(rest).pending is None {
                assert(s.taken_by(writes) =~= resp.skip(s.pending_off));
            } else {
                assert(s.taken_by(writes) =~= resp.subrange(
                    s.pending_off,
                    t.after(rest).pending_off,
                ));
            }
        }
    }
}

/// A request is answered only when it is complete.
pub proof fn law_only_whole_requests_are_answered(s: State)
    requires
        s.input.len() <= BUF_CAP,
    ensures
        s.next_request().1 matches Action::Answer(total, body_start) ==> {
            &&& 0 < total <= s.input.len()
            &&& http::request_frame(s.input) == Some((total as int, body_start as int))
        },
        s.next_request().1 is Answer || s.next_request().1 is Keep,
        s.next_request().0.input == s.input,
{
    if http::request_frame(s.input) is Some {
        http::law_frame_bounds(s.input);
    }
}

/// The complete requests at the start of what was received, in their order.
pub open spec fn requests(input: Seq<u8>) -> Seq<Seq<u8>>
    decreases input.len(),
{
    match http::request_frame(input) {
        Some((total, body_start)) => if 0 < total <= input.len() {
            seq![input.take(total)] + requests(input.skip(total))
        } else {
            Seq::empty()
        },
        None => Seq::empty(),
    }
}

/// The requests one behind the other.
pub open spec fn joined(reqs: Seq<Seq<u8>>) -> Seq<u8>
    decreases reqs.len(),
{
    if reqs.len() == 0 {
        Seq::empty()
    } else {
        reqs[0] + joined(reqs.skip(1))
    }
}

/// What a connection does from a state and an action on: the requests that it answers, in
/// their order, and the state that it then waits in. The first `n` responses are sent at once;
/// the one behind them is blocked.
pub open spec fn served(
    s: State,
    action: Action,
    respond: spec_fn(Seq<u8>, usize) -> Seq<u8>,
    n: nat,
) -> (Seq<Seq<u8>>, State)
    decreases s.input.len(),
{
    match action {
        Action::Answer(total, body_start) => {
            let request = s.input.take(total as int);
            let response = respond(request, body_start);
            let t = s.answer(total as int, response).0;
            if n == 0 {
                (seq![request], t.write_result(Written::Blocked).0)
            } else {
                let (u, next) = t.send(response.len() as int);
                if u.input.len() < s.input.len() {
                    let (more, end) = served(u, next, respond, (n - 1) as nat);
                    (seq![request] + more, end)
                } else {
                    (seq![request], u)
                }
            }
        },
        _ => (Seq::empty(), s),
    }
}

/// A response that is sent at once leads to the next request, with nothing pending.
pub proof fn law_sent_response_leads_on(s: State, total: int, response: Seq<u8>)
    requires
        response.len() > 0,
    ensures
        ({
            let (t, a) = s.answer(total, response);
            &&& a is Write
            &&& t.send(response.len() as int) == State {
                mode: Mode::Idle,
                ..t.silent()
            }.next_request()
        }),
{
    let t = s.answer(total, response).0;
    assert(t.unsent() =~= response);
}

/// Every complete request is answered once, in its order, up to the first response that is
/// blocked, and what follows the answered ones stays.
pub proof fn law_requests_are_answered_in_order(
    s: State,
    respond: spec_fn(Seq<u8>, usize) -> Seq<u8>,
    n: nat,
)
    requires
        s.input.len() <= BUF_CAP,
        s.pending is None,
        s.pending_off == 0,
        forall|r: Seq<u8>, b: usize| (#[trigger] respond(r, b)).len() > 0,
    ensures
        ({
            let all = requests(s.input);
            let (t, action) = s.next_request();
            let (answered, end) = served(t, action, respond, n);
            &&& answered == all.take(
                if all.len() <= n {
                    all.len() as int
                } else {
                    n as int + 1
                },
            )
            &&& joined(answered) + end.input == s.input
            &&& all.len() <= n ==> end.pending is None && requests(end.input).len() == 0
            &&& all.len() > n ==> end.pending is Some && end.mode is Idle
        }),
    decreases s.input.len(),
{
    law_only_whole_requests_are_answered(s);
    let all = requests(s.input);
    if http::request_frame(s.input) is Some {
        http::law_frame_bounds(s.input);
    }
    let (t, action) = s.next_request();
    match action {
        Action::Answer(total, body_start) => {
            let request = t.input.take(total as int);
            let response = respond(request, body_start);
            let rest = s.input.skip(total as int);
            let u = t.answer(total as int, response).0;
            assert(u.input =~= rest);
            assert(request + rest =~= s.input);
            assert(all == seq![request] + requests(rest));
            assert(all[0] == request);
            assert(all.skip(1) =~= requests(rest));
            let one = seq![request];
            assert(one.skip(1) =~= Seq::<Seq<u8>>::empty());
            assert(joined(Seq::<Seq<u8>>::empty()) =~= Seq::<u8>::empty());
            assert(joined(one) =~= request);
            if n == 0 {
                assert(all.take(1) =~= one);
            } else {
                law_sent_response_leads_on(t, total as int, response);
                let idle = State { mode: Mode::Idle, ..u.silent() };
                law_only_whole_requests_are_answered(idle);
                let (v, next) = idle.next_request();
                let (more, end) = served(v, next, respond, (n - 1) as nat);
                law_requests_are_answered_in_order(idle, respond, (n - 1) as nat);
                let answered = one + more;
                assert(served(t, action, respond, n) == (answered, end));
                assert(answered.skip(1) =~= more);
                assert(joined(answered) + end.input =~= request + (joined(more) + end.input));
                let k = if all.len() <= n {
                    all.len() as int
                } else {
                    n as int + 1
                };
                assert(answered =~= all.take(k));
            }
        },
        _ => {
            assert(all.len() == 0);
            assert(all.take(0) =~= Seq::<Seq<u8>>::empty());
            assert(joined(Seq::<Seq<u8>>::empty()) =~= Seq::<u8>::empty());
            assert(Seq::<u8>::empty() + s.input =~= s.input);
        },
    }
}

/// An answered request leaves the input, and what was received behind it stays.
pub proof fn law_answer_keeps_what_follows(
    s: State,
    request: Seq<u8>,
    follows: Seq<u8>,
    response: Seq<u8>,
)
    requires
        s.input == request + follows,
        response.len() > 0,
    ensures
        s.answer(request.len() as int, response).0.input == follows,
        s.answer(request.len() as int, response).0.pending == Some(response),
        s.answer(request.len() as int, response).0.unsent() == response,
        s.answer(request.len() as int, response).1 is Write,
{
    let t = s.answer(request.len() as int, response).0;
    assert(t.input =~= follows);
    assert(t.unsent() =~= response);
}

} // verus!
