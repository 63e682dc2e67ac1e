use rinha_fraud::balance::{backoff, count_attempt, RoundRobin, Wait};
use rinha_fraud::distribution::log_distribution;
use rinha_fraud::fdpass::{
    cmsg_align, cmsg_len, cmsg_space, control_bytes, header_for_fd, received_fd, send_step,
    Cmsghdr, RecvError, SendStep, CMSGHDR_BYTES, FD_BYTES, SCM_RIGHTS, SOL_SOCKET, WORD_BYTES,
};
use rinha_fraud::index::PartitionMeta;
use rinha_fraud::settings::{parse_listen_addr, truthy, ListenAddr};

#[test]
fn control_messages_are_aligned() {
    assert_eq!(WORD_BYTES, std::mem::size_of::<usize>());
    assert_eq!(CMSGHDR_BYTES, std::mem::size_of::<usize>() + 8);
    assert_eq!(cmsg_align(0), 0);
    assert_eq!(cmsg_align(1), WORD_BYTES);
    assert_eq!(cmsg_align(WORD_BYTES), WORD_BYTES);
    assert_eq!(cmsg_align(WORD_BYTES + 1), 2 * WORD_BYTES);
    assert_eq!(cmsg_len(4), CMSGHDR_BYTES + 4);
    assert_eq!(cmsg_space(4), CMSGHDR_BYTES + WORD_BYTES);
    assert_eq!(control_bytes(), cmsg_space(FD_BYTES));
}

#[test]
fn a_passed_descriptor_is_received() {
    let h = header_for_fd();
    assert_eq!((h.cmsg_len, h.cmsg_level, h.cmsg_type), (CMSGHDR_BYTES + 4, SOL_SOCKET, SCM_RIGHTS));
    assert_eq!(received_fd(1, control_bytes(), h, 42), Ok(Some(42)));
    assert_eq!(received_fd(0, 0, h, 42), Ok(None));
    assert_eq!(received_fd(-1, 0, h, 42), Err(RecvError::System));
    assert_eq!(received_fd(1, CMSGHDR_BYTES + 3, h, 42), Err(RecvError::MissingControl));
    let bad = [
        Cmsghdr { cmsg_level: 0, ..h },
        Cmsghdr { cmsg_type: 2, ..h },
        Cmsghdr { cmsg_len: CMSGHDR_BYTES + 3, ..h },
    ];
    for b in bad {
        assert_eq!(received_fd(1, control_bytes(), b, 42), Err(RecvError::InvalidControl));
    }
}

#[test]
fn an_interrupted_send_is_repeated() {
    assert_eq!(send_step(1, false), SendStep::Sent);
    assert_eq!(send_step(0, true), SendStep::Sent);
    assert_eq!(send_step(-1, true), SendStep::Retry);
    assert_eq!(send_step(-1, false), SendStep::Failed);
}

#[test]
fn backends_take_turns() {
    let mut rr = RoundRobin::new(3);
    let turns: Vec<usize> = (0..7).map(|_| rr.turn()).collect();
    assert_eq!(turns, vec![0, 1, 2, 0, 1, 2, 0]);
    // every backend is tried once, from the first one on
    let start = 2;
    let mut tried = vec![start];
    let mut idx = start;
    while let Some(n) = rr.after_failure(idx, start) {
        tried.push(n);
        idx = n;
    }
    assert_eq!(tried, vec![2, 0, 1]);
    let mut one = RoundRobin::new(1);
    assert_eq!((one.turn(), one.turn()), (0, 0));
    assert_eq!(one.after_failure(0, 0), None);
}

#[test]
fn waiting_gets_longer() {
    assert_eq!(backoff(1), Wait::Spin);
    assert_eq!(backoff(99), Wait::Spin);
    assert_eq!(backoff(100), Wait::Yield);
    assert_eq!(backoff(9_999), Wait::Yield);
    assert_eq!(backoff(10_000), Wait::Sleep);
    assert_eq!(count_attempt(0), 1);
    assert_eq!(count_attempt(u32::MAX), u32::MAX);
}

#[test]
fn settings_that_are_on() {
    for on in ["1", "true", "TRUE", "True", "yes", "YeS"] {
        assert!(truthy(on.as_bytes()), "{}", on);
    }
    for off in ["", "0", "2", "11", "on", "truee", "tru", "no", " 1"] {
        assert!(!truthy(off.as_bytes()), "{}", off);
    }
}

#[test]
fn listen_addresses() {
    let addr = |s: &str| parse_listen_addr(s.as_bytes());
    assert_eq!(addr("0.0.0.0:9999"), ListenAddr { host: None, port: 9_999 });
    assert_eq!(addr(":80"), ListenAddr { host: None, port: 80 });
    assert_eq!(addr("8080"), ListenAddr { host: None, port: 8_080 });
    assert_eq!(addr("127.0.0.1:81"), ListenAddr { host: Some(9), port: 81 });
    assert_eq!(addr("a:b:82"), ListenAddr { host: Some(3), port: 82 });
    assert_eq!(addr("0.0.0.0:+443"), ListenAddr { host: None, port: 443 });
    for port in ["", "+", "-1", "65536", "x", "1 ", "99999999999999999999999"] {
        assert_eq!(addr(&format!(":{}", port)).port, 9_999, "{}", port);
    }
    assert_eq!(addr(":65535").port, 65_535);
    assert_eq!(addr("").port, 9_999);
}

fn with_counts(counts: &[(usize, u32)]) -> Vec<PartitionMeta> {
    let mut p = vec![PartitionMeta::empty(); 256];
    for (k, c) in counts {
        p[*k].count = *c;
    }
    p
}

#[test]
fn the_distribution_is_summarised() {
    let d = log_distribution(&with_counts(&[(3, 50), (200, 10), (7, 50), (9, 20)]));
    assert_eq!((d.non_empty, d.empty), (4, 252));
    assert_eq!((d.min, d.max, d.total), (10, 50, 130));
    // (4 - 1) * p / 100
    assert_eq!((d.p50, d.p90, d.p95, d.p99), (20, 50, 50, 50));
    assert_eq!(d.top, vec![(3, 50), (7, 50), (9, 20), (200, 10)]);
}

#[test]
fn at_most_ten_partitions_are_listed() {
    let counts: Vec<(usize, u32)> = (0..100).map(|k| (k, (k as u32 * 37) % 101 + 1)).collect();
    let d = log_distribution(&with_counts(&counts));
    assert_eq!(d.top.len(), 10);
    let mut sorted: Vec<u32> = counts.iter().map(|c| c.1).collect();
    sorted.sort();
    assert_eq!(d.p90, sorted[99 * 90 / 100]);
    let tops: Vec<u32> = d.top.iter().map(|t| t.1).collect();
    let want: Vec<u32> = sorted.iter().rev().take(10).copied().collect();
    assert_eq!(tops, want);
    let none = log_distribution(&with_counts(&[]));
    assert_eq!((none.non_empty, none.empty, none.min, none.max, none.p99), (0, 256, 0, 0, 0));
    assert_eq!((none.total, none.top.len()), (0, 0));
}
