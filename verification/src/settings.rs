//! Reading the settings of the services.
use crate::bytes::matches_at;
use crate::http;
use crate::json;
use crate::lex;
use vstd::prelude::*;

verus! {

/// The port of a listen address that names none.
pub const DEFAULT_PORT: u16 = 9_999;

/// `a` and `b` are the same but for upper and lower case.
pub open spec fn same_word(a: Seq<u8>, b: Seq<u8>) -> bool {
    a.len() == b.len() && http::names_at(a, 0, b)
}

/// A setting is on: it is 1, true or yes.
pub open spec fn is_on(v: Seq<u8>) -> bool {
    v == json::text("1") || same_word(v, json::text("true")) || same_word(v, json::text("yes"))
}

fn is_word(v: &[u8], word: &[u8]) -> (r: bool)
    ensures
        r == same_word(v@, word@),
{
    v.len() == word.len() && http::names_here(v, 0, word)
}

/// Whether a setting is on.
pub fn truthy(v: &[u8]) -> (r: bool)
    ensures
        r == is_on(v@),
{
    let one: &[u8] = "1".as_bytes();
    let is_one: bool = v.len() == one.len() && matches_at(v, 0, one);
    proof {
        if v@.len() == one@.len() {
            assert(v@.subrange(0, one@.len() as int) =~= v@);
        }
    }
    is_one || is_word(v, "true".as_bytes()) || is_word(v, "yes".as_bytes())
}

/// The number of 16 bits that `s` writes, with or without a plus sign.
pub open spec fn port_number(s: Seq<u8>) -> Option<int> {
    let d = if s.len() > 0 && s[0] == '+' as u8 {
        s.skip(1)
    } else {
        s
    };
    if d.len() > 0 && lex::digits(d) == d.len() && lex::decimal(d) <= u16::MAX {
        Some(lex::decimal(d))
    } else {
        None
    }
}

/// Where the last `b` stands in `s`.
pub open spec fn last_index(s: Seq<u8>, b: u8) -> Option<int>
    decreases s.len(),
{
    if s.len() == 0 {
        None
    } else if s.last() == b {
        Some(s.len() - 1)
    } else {
        last_index(s.drop_last(), b)
    }
}

/// A listen address.
#[derive(Clone, Copy, PartialEq, Eq, Structural, Debug)]
pub struct ListenAddr {
    /// The bytes of the host, if it is a particular one; none for all of them.
    pub host: Option<usize>,
    pub port: u16,
}

/// The address that `listen` writes: a host and a port with a colon between them, or a port.
/// What is no port is the default one; no host, or `0.0.0.0`, is all of them.
pub open spec fn listen_addr(listen: Seq<u8>) -> ListenAddr {
    let (host, rest) = match last_index(listen, ':' as u8) {
        Some(i) => (
            if i == 0 || listen.take(i) == json::text("0.0.0.0") {
                None
            } else {
                Some(i as usize)
            },
            listen.skip(i + 1),
        ),
        None => (None, listen),
    };
    ListenAddr {
        host,
        port: match port_number(rest) {
            Some(p) => p as u16,
            None => DEFAULT_PORT,
        },
    }
}

fn parse_port(s: &[u8], from: usize) -> (r: Option<u16>)
    requires
        from <= s@.len(),
    ensures
        match r {
            Some(p) => port_number(s@.skip(from as int)) == Some(p as int),
            None => port_number(s@.skip(from as int)) is None,
        },
{
    let ghost t = s@.skip(from as int);
    let start: usize = if from < s.len() && s[from] == '+' as u8 { from + 1 } else { from };
    let ghost d = s@.skip(start as int);
    proof {
        if from < s@.len() {
            assert(t[0] == s@[from as int]);
            assert(t.skip(1) =~= s@.skip(from + 1));
        }
    }
    let end: usize = lex::skip_digits(s, start);
    if start == s.len() || end < s.len() {
        return None;
    }
    proof {
        lex::lemma_leading(d, |b: u8| lex::is_digit(b));
        assert forall|k: int| start <= k < end implies lex::is_digit(#[trigger] s@[k]) by {
            assert(d[k - start] == s@[k]);
        }
        assert(s@.subrange(start as int, end as int) =~= d);
    }
    let v: usize = http::capped_decimal(s, start, end);
    if v <= u16::MAX as usize {
        Some(v as u16)
    } else {
        None
    }
}

/// Where the last colon stands.
fn last_colon(s: &[u8]) -> (r: Option<usize>)
    ensures
        match r {
            Some(i) => last_index(s@, ':' as u8) == Some(i as int) && i < s@.len() <= usize::MAX,
            None => last_index(s@, ':' as u8) is None,
        },
{
    let len: usize = s.len();
    let mut n: usize = len;
    assert(s@.take(n as int) =~= s@);
    while n > 0
        invariant
            n <= s@.len(),
            len == s@.len(),
            last_index(s@, ':' as u8) == last_index(s@.take(n as int), ':' as u8),
        decreases n,
    {
        assert(s@.take(n as int).last() == s@[n - 1]);
        assert(s@.take(n as int).drop_last() =~= s@.take(n - 1));
        if s[n - 1] == ':' as u8 {
            return Some(n - 1);
        }
        n = n - 1;
    }
    None
}

/// Reads a listen address.
pub fn parse_listen_addr(listen: &[u8]) -> (r: ListenAddr)
    ensures
        r == listen_addr(listen@),
{
    let (host, from): (Option<usize>, usize) = match last_colon(listen) {
        Some(i) => {
            let any: &[u8] = "0.0.0.0".as_bytes();
            let all: bool = i == 0 || i == any.len() && matches_at(listen, 0, any);
            proof {
                if i == any@.len() {
                    assert(listen@.subrange(0, any@.len() as int) =~= listen@.take(i as int));
                }
            }
            let host: Option<usize> = if all { None } else { Some(i) };
            (host, i + 1)
        },
        None => {
            assert(listen@.skip(0) =~= listen@);
            (None, 0)
        },
    };
    let port: u16 = match parse_port(listen, from) {
        Some(p) => p,
        None => DEFAULT_PORT,
    };
    ListenAddr { host, port }
}

} // verus!
