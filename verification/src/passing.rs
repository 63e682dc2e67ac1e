//! What the load balancer does with a connection, call by call, and what its settings mean.
use crate::balance;
use crate::balance::{backoff, count_attempt, RoundRobin, Wait};
use crate::fdpass;
use crate::fdpass::{
    cmsg_align, cmsg_len, cmsg_space, control_bytes, header_for_fd, received_fd, send_step,
    Cmsghdr, RecvError, SendStep,
};
use crate::framing;
use crate::http;
use crate::json;
use crate::lex;
use crate::settings;
use crate::settings::{parse_listen_addr, truthy, ListenAddr};
use crate::text;
use vstd::prelude::*;

verus! {

/// Backends are offered connections in turn, from the first one on, and after the last one
/// comes the first again.
pub proof fn law_backends_take_turns(n: usize, a: RoundRobin, b: &mut RoundRobin, r: usize)
    requires
        call_ensures(RoundRobin::new, (n,), a),
        call_ensures(RoundRobin::turn, (b,), r),
        n > 0,
        old(b).next < old(b).backends,
    ensures
        a.backends == n && a.next == 0,
        r == old(b).next,
        final(b).backends == old(b).backends,
        final(b).next == if old(b).next + 1 < old(b).backends {
            old(b).next + 1
        } else {
            0
        },
{
    balance::law_turns_go_round(r as int, 1, old(b).backends as int);
    balance::lemma_step(r as int, old(b).backends as int);
}

/// After a backend that failed the next one is tried, until it is the turn of the one that was
/// tried first.
pub proof fn law_failed_backend_is_passed_over(
    b: RoundRobin,
    idx: usize,
    start: usize,
    r: Option<usize>,
)
    requires
        call_ensures(RoundRobin::after_failure, (&b, idx, start), r),
        idx < b.backends,
    ensures
        ({
            let next = if idx + 1 < b.backends {
                idx + 1
            } else {
                0
            };
            &&& r is None <==> next == start
            &&& r matches Some(i) ==> i == next
        }),
{
    balance::lemma_step(idx as int, b.backends as int);
}

/// The first hundred attempts spin, those up to the ten thousandth yield, and all later ones
/// sleep; attempts are counted up to the greatest number and no further.
pub proof fn law_waiting_grows_with_the_attempts(a: u32, w: Wait, n: u32)
    requires
        call_ensures(backoff, (a,), w),
        call_ensures(count_attempt, (a,), n),
    ensures
        w is Spin <==> a <= 99,
        w is Sleep <==> a >= 10_000,
        n == a + 1 || n == a && a == 0xffff_ffff,
        a < 0xffff_ffff ==> n > a,
{
}

/// Control messages are measured in machine words: the header takes one and eight bytes, and
/// what follows it is rounded up.
pub proof fn law_control_messages_are_word_aligned(
    len: usize,
    a: usize,
    l: usize,
    s: usize,
    c: usize,
    h: Cmsghdr,
)
    requires
        call_ensures(cmsg_align, (len,), a),
        call_ensures(cmsg_len, (len,), l),
        call_ensures(cmsg_space, (len,), s),
        call_ensures(control_bytes, (), c),
        call_ensures(header_for_fd, (), h),
    ensures
        ({
            let word = usize::BITS as int / 8;
            &&& a as int % word == 0 && len <= a < len + word
            &&& l == word + 8 + len
            &&& s == word + 8 + a
            &&& c == 2 * word + 8
            &&& h.cmsg_len == word + 8 + 4
            &&& h.cmsg_level == 1
            &&& h.cmsg_type == 1
        }),
{
    fdpass::lemma_fd_space();
}

/// Sending is done once the system took something, repeated after an interruption, and has
/// failed after any other error.
pub proof fn law_sending_is_repeated_after_an_interruption(sent: isize, again: bool, r: SendStep)
    requires
        call_ensures(send_step, (sent, again), r),
    ensures
        r is Sent <==> sent >= 0,
        r is Retry <==> sent < 0 && again,
        r is Failed <==> sent < 0 && !again,
{
}

/// A descriptor is received exactly with a message whose control part is whole and passes
/// rights; the end of the stream, an error of the system, a missing control part and one that
/// passes something else are told apart.
pub proof fn law_descriptor_comes_with_its_rights(
    received: isize,
    control: usize,
    h: Cmsghdr,
    fd: i32,
    r: Result<Option<i32>, RecvError>,
)
    requires
        call_ensures(received_fd, (received, control, h, fd), r),
    ensures
        ({
            let least = usize::BITS as int / 8 + 8 + 4;
            let rights = h.cmsg_level == 1 && h.cmsg_type == 1 && h.cmsg_len >= least;
            &&& received < 0 ==> r == Err::<Option<i32>, RecvError>(RecvError::System)
            &&& received == 0 ==> r == Ok::<Option<i32>, RecvError>(None)
            &&& received > 0 && control < least ==> r == Err::<Option<i32>, RecvError>(
                RecvError::MissingControl,
            )
            &&& received > 0 && control >= least && !rights ==> r == Err::<Option<i32>, RecvError>(
                RecvError::InvalidControl,
            )
            &&& received > 0 && control >= least && rights ==> r == Ok::<Option<i32>, RecvError>(
                Some(fd),
            )
        }),
{
    fdpass::lemma_fd_space();
}

/// `v` spells `word`, in letters of any case.
pub open spec fn spells(v: Seq<u8>, word: Seq<u8>) -> bool {
    &&& v.len() == word.len()
    &&& forall|i: int| 0 <= i < v.len() ==> framing::is_letter(#[trigger] v[i], word[i])
}

proof fn lemma_spells(v: Seq<u8>, word: Seq<u8>)
    requires
        forall|i: int| 0 <= i < word.len() ==> 0x61 <= #[trigger] word[i] <= 0x7a,
    ensures
        settings::same_word(v, word) <==> spells(v, word),
{
    if settings::same_word(v, word) {
        assert forall|i: int| 0 <= i < v.len() implies framing::is_letter(
            #[trigger] v[i],
            word[i],
        ) by {
            assert(http::lower(v[0 + i]) == http::lower(word[i]));
            assert(0x61 <= word[i] <= 0x7a);
        }
    }
    if spells(v, word) {
        assert forall|i: int| 0 <= i < word.len() implies http::lower(v[0 + i]) == http::lower(
            #[trigger] word[i],
        ) by {
            assert(framing::is_letter(v[i], word[i]));
            assert(0x61 <= word[i] <= 0x7a);
        }
    }
}

/// A setting is on if it is the figure one, or spells true or yes.
pub proof fn law_setting_is_on(v: &[u8], r: bool)
    requires
        call_ensures(truthy, (v,), r),
    ensures
        r <==> v@ == seq![0x31u8] || spells(v@, seq![0x74u8, 0x72, 0x75, 0x65]) || spells(
            v@,
            seq![0x79u8, 0x65, 0x73],
        ),
{
    reveal_strlit("1");
    reveal_strlit("true");
    reveal_strlit("yes");
    vstd::string::is_ascii_spec_bytes("1");
    vstd::string::is_ascii_spec_bytes("true");
    vstd::string::is_ascii_spec_bytes("yes");
    assert(json::text("1") =~= seq![0x31u8]);
    assert(json::text("true") =~= seq![0x74u8, 0x72, 0x75, 0x65]);
    assert(json::text("yes") =~= seq![0x79u8, 0x65, 0x73]);
    lemma_spells(v@, json::text("true"));
    lemma_spells(v@, json::text("yes"));
}

proof fn lemma_last_index(s: Seq<u8>, b: u8, i: int)
    requires
        0 <= i < s.len(),
        s[i] == b,
        forall|j: int| i < j < s.len() ==> #[trigger] s[j] != b,
    ensures
        settings::last_index(s, b) == Some(i),
    decreases s.len(),
{
    if i < s.len() - 1 {
        assert(s[s.len() - 1] != b);
        lemma_last_index(s.drop_last(), b, i);
    }
}

proof fn lemma_no_index(s: Seq<u8>, b: u8)
    requires
        forall|j: int| 0 <= j < s.len() ==> #[trigger] s[j] != b,
    ensures
        settings::last_index(s, b) is None,
    decreases s.len(),
{
    if s.len() > 0 {
        assert(s[s.len() - 1] != b);
        lemma_no_index(s.drop_last(), b);
    }
}

/// The port that `s` names: a number of 16 bits, with or without a plus sign; 9999 otherwise.
pub open spec fn port_named(s: Seq<u8>) -> int {
    let d = if s.len() > 0 && s[0] == 0x2b {
        s.skip(1)
    } else {
        s
    };
    if d.len() > 0 && text::are_figures(d) && text::worth(d) <= 0xffff {
        text::worth(d)
    } else {
        9_999
    }
}

proof fn lemma_port(s: Seq<u8>)
    ensures
        (match settings::port_number(s) {
            Some(p) => p,
            None => 9_999,
        }) == port_named(s),
        settings::port_number(s) matches Some(p) ==> 0 <= p <= 0xffff,
{
    let d = if s.len() > 0 && s[0] == 0x2b {
        s.skip(1)
    } else {
        s
    };
    text::lemma_decimal_is_worth(d);
    lex::lemma_leading(d, |b: u8| lex::is_digit(b));
    if text::are_figures(d) {
        text::lemma_figures_end(d, Seq::empty());
        assert(d + Seq::<u8>::empty() =~= d);
        text::lemma_worth_bounds(d);
    } else if lex::digits(d) == d.len() {
        assert forall|i: int| 0 <= i < d.len() implies text::is_figure(#[trigger] d[i]) by {
            assert(lex::is_digit(d[i]));
        }
    }
}

/// `0.0.0.0`.
pub open spec fn any_host() -> Seq<u8> {
    seq![0x30u8, 0x2e, 0x30, 0x2e, 0x30, 0x2e, 0x30]
}

/// A listen address is a host and a port with a colon between them, or a port alone. No host
/// and the one of zeroes stand for all of them, and what is no port stands for 9999.
pub proof fn law_listen_address_is_host_and_port(
    listen: &[u8],
    r: ListenAddr,
    host: Seq<u8>,
    port: Seq<u8>,
)
    requires
        call_ensures(parse_listen_addr, (listen,), r),
        listen@.len() <= usize::MAX,
        forall|j: int| 0 <= j < port.len() ==> #[trigger] port[j] != 0x3a,
    ensures
        listen@ == host + seq![0x3au8] + port ==> {
            &&& r.port == port_named(port)
            &&& r.host == if host.len() == 0 || host == any_host() {
                None
            } else {
                Some(host.len() as usize)
            }
        },
        listen@ == port ==> r.port == port_named(port) && r.host is None,
{
    lemma_port(port);
    reveal_strlit("0.0.0.0");
    vstd::string::is_ascii_spec_bytes("0.0.0.0");
    assert(json::text("0.0.0.0") =~= any_host());
    if listen@ == host + seq![0x3au8] + port {
        let i = host.len() as int;
        assert forall|j: int| i < j < listen@.len() implies #[trigger] listen@[j] != 0x3a by {
            assert(listen@[j] == port[j - i - 1]);
        }
        lemma_last_index(listen@, 0x3a, i);
        assert(listen@.take(i) =~= host);
        assert(listen@.skip(i + 1) =~= port);
    }
    if listen@ == port {
        lemma_no_index(port, 0x3a);
    }
}

} // verus!
