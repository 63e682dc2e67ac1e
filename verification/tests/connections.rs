use rinha_fraud::client::{
    Action, Client, Received, Written, BUF_CAP, EPOLLERR, EPOLLHUP, EPOLLIN, EPOLLOUT, EPOLLRDHUP,
    TAG_CONTROL, TAG_LISTENER,
};
use rinha_fraud::pool::{receives, subject, Pool, Subject, DEFAULT_CLIENTS};

const REQ: &[u8] = b"GET /ready HTTP/1.1\r\n\r\n";

fn client() -> Client {
    let mut c = Client::new();
    c.open(7);
    c
}

#[test]
fn a_request_is_read_answered_and_sent() {
    let mut c = client();
    assert_eq!(c.begin(EPOLLIN), Action::Read(BUF_CAP));
    assert_eq!(c.after_read(Received::Data(&REQ[..5])), Action::Read(BUF_CAP - 5));
    assert_eq!(c.after_read(Received::Interrupted), Action::Read(BUF_CAP - 5));
    assert_eq!(c.after_read(Received::WouldBlock), Action::Keep);
    assert_eq!(c.begin(EPOLLIN), Action::Read(BUF_CAP - 5));
    assert_eq!(c.after_read(Received::Data(&REQ[5..])), Action::Read(BUF_CAP - 23));
    assert_eq!(c.after_read(Received::WouldBlock), Action::Answer(23, 23));
    assert_eq!(c.request(23), REQ);
    assert_eq!(c.answer(23, b"hello".to_vec()), Action::Write);
    assert_eq!(c.unsent(), b"hello");
    assert_eq!(c.after_write(Written::Count(2)), Action::Write);
    assert_eq!(c.unsent(), b"llo");
    assert_eq!(c.after_write(Written::Count(3)), Action::Keep);
    assert_eq!(c.buf.len(), 0);
    assert!(c.pending.is_none());
}

#[test]
fn pipelined_requests_are_answered_in_order() {
    let mut c = client();
    c.begin(EPOLLIN);
    let mut two = REQ.to_vec();
    two.extend_from_slice(b"GET /other HTTP/1.1\r\n\r\nrest");
    c.after_read(Received::Data(&two));
    assert_eq!(c.after_read(Received::WouldBlock), Action::Answer(23, 23));
    assert_eq!(c.answer(23, b"1".to_vec()), Action::Write);
    assert_eq!(c.after_write(Written::Count(1)), Action::Answer(23, 23));
    assert_eq!(&c.request(23)[..10], b"GET /other");
    assert_eq!(c.answer(23, b"2".to_vec()), Action::Write);
    assert_eq!(c.after_write(Written::Count(1)), Action::Keep);
    assert_eq!(c.buf, b"rest");
}

#[test]
fn a_blocked_response_waits() {
    let mut c = client();
    c.begin(EPOLLIN);
    c.after_read(Received::Data(REQ));
    c.after_read(Received::WouldBlock);
    c.answer(23, b"hello".to_vec());
    c.after_write(Written::Count(1));
    assert_eq!(c.after_write(Written::Blocked), Action::Keep);
    assert_eq!(c.changed_events(), Some(EPOLLIN | EPOLLRDHUP | EPOLLOUT));
    assert_eq!(c.changed_events(), None);
    // nothing is read before it is sent
    assert_eq!(c.begin(EPOLLIN), Action::Keep);
    assert_eq!(c.begin(EPOLLIN | EPOLLOUT), Action::Write);
    assert_eq!(c.unsent(), b"ello");
    assert_eq!(c.after_write(Written::Blocked), Action::Keep);
    assert_eq!(c.begin(EPOLLIN | EPOLLOUT), Action::Write);
    assert_eq!(c.after_write(Written::Count(4)), Action::Read(BUF_CAP));
    assert_eq!(c.changed_events(), Some(EPOLLIN | EPOLLRDHUP));
}

#[test]
fn what_is_written_makes_up_the_response() {
    let response: Vec<u8> = (0..200u8).collect();
    let mut c = client();
    assert_eq!(c.pending_off, 0);
    c.begin(EPOLLIN);
    c.after_read(Received::Data(REQ));
    c.after_read(Received::WouldBlock);
    assert_eq!(c.answer(23, response.clone()), Action::Write);
    let mut sent: Vec<u8> = Vec::new();
    for n in [1usize, 0, 70, 5, 0, 100, 24] {
        if n == 0 {
            assert_eq!(c.after_write(Written::Blocked), Action::Keep);
            assert_eq!(c.begin(EPOLLIN | EPOLLOUT), Action::Write);
        } else {
            sent.extend_from_slice(&c.unsent()[..n]);
            c.after_write(Written::Count(n));
        }
    }
    assert_eq!(sent, response);
    assert!(c.pending.is_none());
    c.open(8);
    assert_eq!((c.fd, c.pending_off), (8, 0));
}

#[test]
fn a_response_that_cannot_be_sent() {
    // a new one is given up
    let mut c = client();
    c.begin(EPOLLIN);
    c.after_read(Received::Data(REQ));
    c.after_read(Received::WouldBlock);
    c.answer(23, b"hello".to_vec());
    assert_eq!(c.after_write(Written::Failed), Action::Keep);
    assert!(c.pending.is_none());
    // an earlier one ends the connection
    for outcome in [Written::Failed, Written::Count(0)] {
        let mut c = client();
        c.answer(0, b"hello".to_vec());
        c.after_write(Written::Blocked);
        c.begin(EPOLLOUT);
        assert_eq!(c.after_write(outcome), Action::Drop);
    }
}

#[test]
fn connections_end() {
    let mut c = client();
    c.begin(EPOLLIN);
    assert_eq!(c.after_read(Received::Data(b"")), Action::Drop);
    assert_eq!(c.after_read(Received::Failed), Action::Drop);
    let mut c = client();
    c.begin(EPOLLIN);
    assert_eq!(c.after_read(Received::Data(&vec![b'x'; BUF_CAP])), Action::Drop);
}

#[test]
fn what_was_consumed_is_forgotten() {
    let mut c = client();
    c.begin(EPOLLIN);
    c.after_read(Received::Data(b"abcdef"));
    c.compact(2);
    assert_eq!(c.buf, b"cdef");
    c.compact(4);
    assert_eq!(c.buf, b"");
    c.compact(9);
    assert_eq!(c.buf, b"");
}

#[test]
fn events_have_subjects() {
    assert_eq!(subject(TAG_LISTENER, EPOLLIN, 4), Subject::Listener);
    assert_eq!(subject(TAG_CONTROL, EPOLLIN, 4), Subject::Control);
    assert_eq!(subject(TAG_CONTROL, EPOLLIN | EPOLLHUP, 4), Subject::ControlEnded);
    assert_eq!(subject(3, EPOLLIN, 4), Subject::Serve(3));
    assert_eq!(subject(3, EPOLLERR, 4), Subject::Ended(3));
    assert_eq!(subject(3, EPOLLRDHUP | EPOLLIN, 4), Subject::Ended(3));
    assert_eq!(subject(4, EPOLLIN, 4), Subject::Unknown);
    assert!(receives(EPOLLIN | EPOLLOUT));
    assert!(!receives(EPOLLOUT));
}

#[test]
fn places_are_taken_and_freed() {
    let mut p = Pool::new(3);
    assert_eq!(p.free, vec![2, 1, 0]);
    assert_eq!(p.take_place(50), Some(0));
    assert_eq!(p.take_place(51), Some(1));
    assert_eq!(p.take_place(52), Some(2));
    assert_eq!(p.take_place(53), None);
    assert_eq!(p.clients[1].fd, 51);
    assert_eq!(p.clients[1].last_events, EPOLLIN | EPOLLRDHUP);
    assert_eq!(p.drop_client(1), Some(51));
    assert_eq!(p.clients[1].fd, -1);
    assert_eq!(p.take_place(54), Some(1));
    assert_eq!(p.clients[1].fd, 54);
    assert_eq!(p.drop_client(2), Some(52));
    assert_eq!(p.drop_client(2), None);
    assert_eq!(Pool::new(DEFAULT_CLIENTS).clients.len(), 1_024);
}
