//! What a worker does with its connections, call by call.
use crate::client;
use crate::client::{Action, Client, Mode, Received, Written};
use crate::http::request_total;
use crate::pool;
use crate::pool::{receives, subject, Pool, Subject};
use vstd::prelude::*;

verus! {

/// What is done about what was received: the request is answered if all of it is there.
pub open spec fn next_step(q: Option<(usize, usize)>, received: int) -> Action {
    match q {
        Some((total, start)) => if total <= received {
            Action::Answer(total, start)
        } else {
            Action::Keep
        },
        None => Action::Keep,
    }
}

/// What is done to receive more: as much is read as there is space up to 4096 bytes; a client
/// that has filled it is dropped.
pub open spec fn read_step(received: int) -> Action {
    if received >= 4_096 {
        Action::Drop
    } else {
        Action::Read((4_096 - received) as usize)
    }
}

/// The bytes of what is being sent.
pub open spec fn sending(c: Client) -> Option<Seq<u8>> {
    match c.pending {
        Some(p) => Some(p@),
        None => None,
    }
}

/// A connection has received what it had received, and is sending what it was sending.
pub open spec fn untouched(before: Client, after: Client) -> bool {
    &&& after.fd == before.fd
    &&& after.buf@ == before.buf@
    &&& sending(after) == sending(before)
    &&& after.pending_off == before.pending_off
    &&& after.last_events == before.last_events
}

/// An event is taken up: what is unsent goes first, once it can be sent, and before that
/// nothing is read or answered. With nothing unsent, what can be read is read, and otherwise
/// what was received is looked at.
pub proof fn law_event_is_taken_up(
    c: &mut Client,
    bits: u32,
    r: Action,
    received: &[u8],
    q: Option<(usize, usize)>,
)
    requires
        call_ensures(Client::begin, (c, bits), r),
        call_ensures(request_total, (received,), q),
        received@ == old(c).buf@,
    ensures
        untouched(*old(c), *final(c)),
        final(c).bits == bits,
        final(c).mode is Flushing <==> r is Write,
        old(c).pending is Some ==> r == if bits & 0x004 != 0 {
            Action::Write
        } else {
            Action::Keep
        },
        old(c).pending is None ==> r == if bits & 0x001 != 0 {
            read_step(old(c).buf@.len() as int)
        } else {
            next_step(q, old(c).buf@.len() as int)
        },
{
    assert(old(c)@.input == old(c).buf@);
    assert(final(c)@.input == final(c).buf@);
    assert(final(c)@.pending == sending(*final(c)));
    assert(old(c)@.pending == sending(*old(c)));
    assert(final(c)@.mode == final(c).mode);
    assert(final(c)@.bits == final(c).bits);
    assert(final(c)@.fd == final(c).fd);
    assert(final(c)@.pending_off == final(c).pending_off);
    assert(final(c)@.last_events == final(c).last_events);
}

/// What is read is kept behind what was received before, and reading goes on until nothing
/// more comes; then what was received is looked at. The end of the connection and an error
/// drop it.
pub proof fn law_what_is_read_is_kept(
    c: &mut Client,
    outcome: Received,
    r: Action,
    received: &[u8],
    q: Option<(usize, usize)>,
)
    requires
        call_ensures(Client::after_read, (c, outcome), r),
        call_ensures(request_total, (received,), q),
        received@ == old(c).buf@,
    ensures
        sending(*final(c)) == sending(*old(c)),
        final(c).pending_off == old(c).pending_off,
        match outcome {
            Received::Data(data) => {
                &&& data@.len() == 0 ==> r is Drop
                &&& data@.len() > 0 ==> {
                    &&& final(c).buf@ == old(c).buf@ + data@
                    &&& r == read_step((old(c).buf@ + data@).len() as int)
                }
            },
            Received::Interrupted => final(c).buf@ == old(c).buf@ && r == read_step(
                old(c).buf@.len() as int,
            ),
            Received::WouldBlock => final(c).buf@ == old(c).buf@ && r == next_step(
                q,
                old(c).buf@.len() as int,
            ),
            Received::Failed => r is Drop,
        },
{
    assert(old(c)@.input == old(c).buf@);
    assert(final(c)@.input == final(c).buf@);
    assert(final(c)@.pending == sending(*final(c)));
    assert(old(c)@.pending == sending(*old(c)));
    assert(final(c)@.pending_off == final(c).pending_off);
}

/// A response is sent from its beginning, and the request that it answers is forgotten.
pub proof fn law_response_is_sent_from_its_beginning(
    c: &mut Client,
    total: usize,
    response: Vec<u8>,
    r: Action,
)
    requires
        call_ensures(Client::answer, (c, total, response), r),
        response@.len() > 0,
    ensures
        r is Write,
        sending(*final(c)) == Some(response@),
        final(c).pending_off == 0,
        final(c).mode is Sending,
        total <= old(c).buf@.len() ==> old(c).buf@.take(total as int) + final(c).buf@
            == old(c).buf@,
        total > old(c).buf@.len() ==> final(c).buf@.len() == 0,
{
    assert(old(c)@.input == old(c).buf@);
    assert(final(c)@.input == final(c).buf@);
    assert(final(c)@.pending == sending(*final(c)));
    assert(final(c)@.pending_off == final(c).pending_off);
    assert(final(c)@.mode == final(c).mode);
    if total <= old(c).buf@.len() {
        assert(old(c).buf@.take(total as int) + final(c).buf@ =~= old(c).buf@);
    }
}

/// What a write took is not sent again. A response that was taken whole is done with, and what
/// was received is looked at, or more is read where it was an earlier response and there is
/// more. A write that is blocked leaves the response for later; one that fails, or takes
/// nothing, drops the connection if the response was an earlier one, and else gives it up.
pub proof fn law_what_was_taken_is_not_sent_again(
    c: &mut Client,
    outcome: Written,
    r: Action,
    received: &[u8],
    q: Option<(usize, usize)>,
)
    requires
        call_ensures(Client::after_write, (c, outcome), r),
        call_ensures(request_total, (received,), q),
        received@ == old(c).buf@,
        old(c).wf(),
        old(c).pending is Some,
    ensures
        final(c).buf@ == old(c).buf@,
        ({
            let left = old(c).pending->0@.len() - old(c).pending_off;
            let lost = outcome is Failed || outcome == Written::Count(0);
            let count = outcome->Count_0;
            &&& outcome is Blocked ==> {
                &&& r is Keep
                &&& sending(*final(c)) == sending(*old(c))
                &&& final(c).pending_off == old(c).pending_off
            }
            &&& lost && old(c).mode is Flushing ==> r is Drop
            &&& lost && !(old(c).mode is Flushing) ==> r is Keep && final(c).pending is None
            &&& outcome is Count && 0 < count < left ==> {
                &&& r is Write
                &&& sending(*final(c)) == sending(*old(c))
                &&& final(c).pending_off == old(c).pending_off + count
                &&& final(c).mode == old(c).mode
            }
            &&& outcome is Count && 0 < count && left <= count ==> {
                &&& final(c).pending is None
                &&& final(c).pending_off == 0
                &&& r == if old(c).mode is Flushing && old(c).bits & 0x001 != 0 {
                    read_step(old(c).buf@.len() as int)
                } else {
                    next_step(q, old(c).buf@.len() as int)
                }
            }
        }),
{
    assert(old(c)@.input == old(c).buf@);
    assert(final(c)@.input == final(c).buf@);
    assert(final(c)@.pending == sending(*final(c)));
    assert(old(c)@.pending == sending(*old(c)));
    assert(final(c)@.pending_off == final(c).pending_off);
    assert(final(c)@.mode == final(c).mode);
    assert(old(c)@.mode == old(c).mode);
    assert(old(c)@.bits == old(c).bits);
}

/// The mode is the one of a connection for which `r` is to be done.
pub open spec fn is_mode_for(r: Action, mode: Mode) -> bool {
    match r {
        Action::Read(_) => mode is Reading,
        Action::Write => mode is Flushing || mode is Sending,
        Action::Answer(_, _) => mode is Answering,
        Action::Keep => mode is Idle,
        Action::Drop => true,
    }
}

/// The connection is the same, and so are the events that it waits for and that it had.
pub open spec fn same_connection(before: Client, after: Client) -> bool {
    &&& after.fd == before.fd
    &&& after.last_events == before.last_events
    &&& after.bits == before.bits
}

/// Whatever is done next, the connection is in the mode for it, and stays the same connection.
pub proof fn law_mode_is_that_of_what_is_done(
    b: &mut Client,
    bits: u32,
    begun: Action,
    c: &mut Client,
    outcome: Received,
    read: Action,
    d: &mut Client,
    total: usize,
    response: Vec<u8>,
    answered: Action,
    e: &mut Client,
    written: Written,
    sent: Action,
)
    requires
        call_ensures(Client::begin, (b, bits), begun),
        call_ensures(Client::after_read, (c, outcome), read),
        call_ensures(Client::answer, (d, total, response), answered),
        call_ensures(Client::after_write, (e, written), sent),
        old(e).mode is Flushing || old(e).mode is Sending,
    ensures
        is_mode_for(begun, final(b).mode),
        is_mode_for(read, final(c).mode),
        is_mode_for(answered, final(d).mode),
        is_mode_for(sent, final(e).mode),
        same_connection(*old(c), *final(c)),
        same_connection(*old(d), *final(d)),
        same_connection(*old(e), *final(e)),
{
}

/// Without a response nothing is sent, and the next request is looked at.
pub proof fn law_no_response_is_not_sent(
    c: &mut Client,
    total: usize,
    response: Vec<u8>,
    r: Action,
    received: &[u8],
    q: Option<(usize, usize)>,
)
    requires
        call_ensures(Client::answer, (c, total, response), r),
        call_ensures(request_total, (received,), q),
        received@ == final(c).buf@,
        response@.len() == 0,
    ensures
        sending(*final(c)) == sending(*old(c)),
        total <= old(c).buf@.len() ==> old(c).buf@.take(total as int) + final(c).buf@
            == old(c).buf@,
        total > old(c).buf@.len() ==> final(c).buf@.len() == 0,
        r == next_step(q, final(c).buf@.len() as int),
{
    if total <= old(c).buf@.len() {
        assert(old(c).buf@.take(total as int) + final(c).buf@ =~= old(c).buf@);
    }
}

/// A connection waits for data and for its end, and for space to send while something is
/// unsent; a change of that is told once.
pub proof fn law_events_follow_what_is_unsent(
    c: &mut Client,
    r: Option<u32>,
    d: Client,
    ev: u32,
)
    requires
        call_ensures(Client::changed_events, (c,), r),
        call_ensures(Client::client_events, (&d,), ev),
    ensures
        ev == if d.pending is Some {
            0x2005u32
        } else {
            0x2001
        },
        ({
            let want = if old(c).pending is Some {
                0x2005u32
            } else {
                0x2001
            };
            &&& final(c).last_events == want
            &&& r is None <==> old(c).last_events == want
            &&& r matches Some(e) ==> e == want
        }),
        final(c).buf@ == old(c).buf@,
        sending(*final(c)) == sending(*old(c)),
{
    assert(0x001u32 | 0x2000u32 == 0x2001u32) by (bit_vector);
    assert(0x001u32 | 0x2000u32 | 0x004u32 == 0x2005u32) by (bit_vector);
    assert(final(c)@.last_events == final(c).last_events);
    assert(old(c)@.last_events == old(c).last_events);
    assert(final(c)@.input == final(c).buf@);
    assert(final(c)@.pending == sending(*final(c)));
    assert(old(c)@.pending == sending(*old(c)));
    assert(d@.pending == sending(d));
}

/// A request is what was received first; what is unsent is the end of the response.
pub proof fn law_request_and_unsent_are_parts(c: Client, total: usize, req: &[u8], rest: &[u8])
    requires
        call_ensures(Client::request, (&c, total), req),
        call_ensures(Client::unsent, (&c,), rest),
        c.wf(),
        c.pending is Some,
        total <= c.buf@.len(),
    ensures
        req@ == c.buf@.subrange(0, total as int),
        c.pending->0@.take(c.pending_off as int) + rest@ == c.pending->0@,
{
    assert(c@.input == c.buf@);
    assert(c@.pending == sending(c));
    assert(c@.pending_off == c.pending_off);
    assert(req@ =~= c.buf@.subrange(0, total as int));
    assert(c.pending->0@.take(c.pending_off as int) + rest@ =~= c.pending->0@);
}

/// A place that is opened has the new connection, nothing received and nothing to send; one
/// that is closed has none, and tells which one it had.
pub proof fn law_place_is_opened_and_closed(
    c: &mut Client,
    fd: i32,
    d: &mut Client,
    r: Option<i32>,
)
    requires
        call_ensures(Client::open, (c, fd), ()),
        call_ensures(Client::close, (d,), r),
    ensures
        final(c).fd == fd,
        final(c).buf@.len() == 0,
        final(c).pending is None,
        final(c).pending_off == 0,
        final(c).last_events == 0x2001,
        final(c).mode is Idle && final(c).bits == old(c).bits,
        final(d).fd == -1,
        final(d).buf@ == old(d).buf@ && sending(*final(d)) == sending(*old(d)),
        r is Some <==> old(d).fd >= 0,
        r matches Some(f) ==> f == old(d).fd,
{
    assert(0x001u32 | 0x2000u32 == 0x2001u32) by (bit_vector);
    assert(final(c)@.fd == final(c).fd);
    assert(final(c)@.input == final(c).buf@);
    assert(final(c)@.pending == sending(*final(c)));
    assert(final(c)@.last_events == final(c).last_events);
    assert(final(d)@.fd == final(d).fd);
}

/// An event is about the listening socket or the control connection, by their marks, or about
/// the place that its mark names; an error or an end is told apart from what is to be served.
pub proof fn law_event_is_about_what_its_mark_names(
    data: u64,
    bits: u32,
    places: usize,
    r: Subject,
    in_data: bool,
)
    requires
        call_ensures(subject, (data, bits, places), r),
        call_ensures(receives, (bits,), in_data),
        places <= 0x1_0000,
    ensures
        ({
            let ended = bits & 0x008 != 0 || bits & 0x010 != 0 || bits & 0x2000 != 0;
            &&& r is Listener <==> data == 0x8000_0000_0000_0000
            &&& r is ControlEnded <==> data == 0xC000_0000_0000_0000 && ended
            &&& r is Control <==> data == 0xC000_0000_0000_0000 && !ended
            &&& r is Ended <==> data < places && ended
            &&& r is Serve <==> data < places && !ended
            &&& r matches Subject::Ended(i) ==> i == data
            &&& r matches Subject::Serve(i) ==> i == data
        }),
        in_data <==> bits & 0x001 != 0,
{
    assert((bits & 0x2018 != 0) == (bits & 0x008 != 0 || bits & 0x010 != 0 || bits & 0x2000 != 0))
        by (bit_vector);
}

/// The places of a new pool are taken from the first one on.
pub proof fn law_places_are_taken_in_order(n: u16, p: Pool, q: &mut Pool, fd: i32, r: Option<u16>)
    requires
        call_ensures(Pool::new, (n,), p),
        call_ensures(Pool::take_place, (q, fd), r),
        old(q).clients@.len() == n,
        exists|k: int| 0 <= k <= n && old(q).free@ == #[trigger] p.free@.take(n - k),
    ensures
        p.clients@.len() == n,
        forall|i: int| 0 <= i < n ==> (#[trigger] p.clients@[i]).fd == -1,
        p.free@.len() == n,
        ({
            let k = n - old(q).free@.len();
            &&& k < n ==> r == Some(k as u16) && final(q).free@ == p.free@.take(n - k - 1)
            &&& k == n ==> r is None
        }),
{
    let k = choose|k: int| 0 <= k <= n && old(q).free@ == #[trigger] p.free@.take(n - k);
    assert(n - old(q).free@.len() == k);
    assert forall|i: int| 0 <= i < n implies (#[trigger] p.clients@[i]).fd == -1 by {
        assert(p.clients@[i]@ == pool::vacant());
        assert(p.clients@[i]@.fd == p.clients@[i].fd);
    }
    if k < n {
        assert(old(q).free@.last() == p.free@[n - k - 1]);
        assert(final(q).free@ =~= p.free@.take(n - k - 1));
    }
}

/// A place that was taken has the connection; the others stay as they are. A place that is
/// dropped is the next to be taken, and the connection that it had is told.
pub proof fn law_places_are_given_back(
    p: &mut Pool,
    fd: i32,
    r: Option<u16>,
    q: &mut Pool,
    idx: usize,
    closed: Option<i32>,
)
    requires
        call_ensures(Pool::take_place, (p, fd), r),
        call_ensures(Pool::drop_client, (q, idx), closed),
        idx < old(q).clients@.len() <= 0x1_0000,
        old(p).wf(),
    ensures
        r is None <==> old(p).free@.len() == 0,
        r matches Some(i) ==> {
            &&& old(p).free@ == final(p).free@.push(i)
            &&& final(p).clients@[i as int].fd == fd
            &&& final(p).clients@[i as int].buf@.len() == 0
            &&& final(p).clients@[i as int].pending is None
            &&& forall|j: int|
                0 <= j < old(p).clients@.len() && j != i ==> #[trigger] final(p).clients@[j]
                    == old(p).clients@[j]
        },
        final(q).free@ == old(q).free@.push(idx as u16),
        final(q).clients@[idx as int].fd == -1,
        closed is Some <==> old(q).clients@[idx as int].fd >= 0,
        closed matches Some(f) ==> f == old(q).clients@[idx as int].fd,
        forall|j: int|
            0 <= j < old(q).clients@.len() && j != idx ==> #[trigger] final(q).clients@[j]
                == old(q).clients@[j],
{
    if r is Some {
        let i = r->0 as int;
        assert(old(p).free@ =~= final(p).free@.push(r->0));
        assert(old(p).free@[old(p).free@.len() - 1] == r->0);
        let c = final(p).clients@[i];
        assert(c@.fd == c.fd && c@.input == c.buf@ && c@.pending == sending(c));
    }
    let d = final(q).clients@[idx as int];
    assert(d@.fd == d.fd);
}

} // verus!
