//! Requests and responses.
use crate::bytes;
use crate::bytes::{matches_at, write_bytes};
use crate::exact;
use crate::features;
use crate::features::Features;
use crate::index::QVec;
use crate::json;
use crate::lex;
use crate::lex::skip_digits;
use crate::search::Index;
use crate::transaction;
use crate::transaction::{parse_transaction, Transaction};
use vstd::prelude::*;

verus! {

/// Two decimal digits.
pub open spec fn two_digits(n: int) -> Seq<u8> {
    seq![('0' as u8 + n / 10 % 10) as u8, ('0' as u8 + n % 10) as u8]
}

/// The share of `n` frauds among five neighbours, with one decimal place.
pub open spec fn score_text(n: int) -> Seq<u8> {
    seq![('0' as u8 + 2 * n / 10) as u8, '.' as u8, ('0' as u8 + 2 * n % 10) as u8]
}

/// What is answered where `n` of the five nearest are frauds: the transaction is approved if
/// fewer than three are.
pub open spec fn body_text(n: int) -> Seq<u8> {
    json::text("{\"approved\":") + (if n < 3 {
        json::text("true")
    } else {
        json::text("false")
    }) + json::text(",\"fraud_score\":") + score_text(n) + json::text("}")
}

/// The head of a response with a body of `len` bytes.
pub open spec fn head_text(len: int) -> Seq<u8> {
    json::text("HTTP/1.1 200 OK\r\nContent-Type: application/json\r\nContent-Length: ")
        + two_digits(len) + json::text("\r\nConnection: keep-alive\r\n\r\n")
}

/// The response where `n` of the five nearest are frauds.
pub open spec fn response_text(n: int) -> Seq<u8> {
    head_text(body_text(n).len() as int) + body_text(n)
}

/// The response of a worker that can take requests.
pub const READY: &'static str =
    "HTTP/1.1 200 OK\r\nContent-Length: 0\r\nConnection: keep-alive\r\n\r\n";

/// The response to an unknown route.
pub const NOT_FOUND: &'static str =
    "HTTP/1.1 404 Not Found\r\nContent-Length: 0\r\nConnection: keep-alive\r\n\r\n";

fn digit(n: usize) -> (r: u8)
    requires
        n < 10,
    ensures
        r == '0' as u8 + n,
{
    '0' as u8 + n as u8
}

fn write_body(w: &mut Vec<u8>, fraud_count: u32)
    requires
        fraud_count <= 5,
    ensures
        final(w)@ == old(w)@ + body_text(fraud_count as int),
{
    let ghost before = w@;
    write_bytes(w, "{\"approved\":".as_bytes());
    if fraud_count < 3 {
        write_bytes(w, "true".as_bytes());
    } else {
        write_bytes(w, "false".as_bytes());
    }
    write_bytes(w, ",\"fraud_score\":".as_bytes());
    let tenths: usize = 2 * fraud_count as usize;
    w.push(digit(tenths / 10));
    w.push('.' as u8);
    w.push(digit(tenths % 10));
    write_bytes(w, "}".as_bytes());
    assert(w@ =~= before + body_text(fraud_count as int));
}

/// The response where `fraud_count` of the five nearest are frauds.
pub fn score_response(fraud_count: u32) -> (r: Vec<u8>)
    requires
        fraud_count <= 5,
    ensures
        r@ == response_text(fraud_count as int),
{
    let mut body: Vec<u8> = Vec::new();
    write_body(&mut body, fraud_count);
    assert(body@ =~= body_text(fraud_count as int));
    let len: usize = body.len();
    let mut w: Vec<u8> = Vec::new();
    write_bytes(
        &mut w,
        "HTTP/1.1 200 OK\r\nContent-Type: application/json\r\nContent-Length: ".as_bytes(),
    );
    w.push(digit(len / 10 % 10));
    w.push(digit(len % 10));
    write_bytes(&mut w, "\r\nConnection: keep-alive\r\n\r\n".as_bytes());
    assert(w@ =~= head_text(len as int));
    write_bytes(&mut w, body.as_slice());
    w
}

/// The length that a response names is that of its body.
pub proof fn law_content_length(n: int)
    requires
        0 <= n <= 5,
    ensures
        body_text(n).len() == if n < 3 {
            35int
        } else {
            36
        },
        lex::decimal(two_digits(body_text(n).len() as int)) == body_text(n).len(),
{
    reveal_strlit("{\"approved\":");
    reveal_strlit("true");
    reveal_strlit("false");
    reveal_strlit(",\"fraud_score\":");
    reveal_strlit("}");
    vstd::string::is_ascii_spec_bytes("{\"approved\":");
    vstd::string::is_ascii_spec_bytes("true");
    vstd::string::is_ascii_spec_bytes("false");
    vstd::string::is_ascii_spec_bytes(",\"fraud_score\":");
    vstd::string::is_ascii_spec_bytes("}");
    let d = two_digits(body_text(n).len() as int);
    reveal_with_fuel(lex::decimal, 3);
    assert(d.drop_last().drop_last() =~= Seq::<u8>::empty());
    assert(d.drop_last().last() == d[0]);
}

/// `b` in lower case.
pub open spec fn lower(b: u8) -> u8 {
    if 'A' as u8 <= b <= 'Z' as u8 {
        (b + 32) as u8
    } else {
        b
    }
}

/// `name` stands in `head` at `i`, in upper or lower case.
pub open spec fn names_at(head: Seq<u8>, i: int, name: Seq<u8>) -> bool {
    &&& 0 <= i
    &&& i + name.len() <= head.len()
    &&& forall|j: int| 0 <= j < name.len() ==> lower(head[i + j]) == lower(#[trigger] name[j])
}

/// The number behind the spaces at the start of `s`, as far as it fits.
pub open spec fn length_value(s: Seq<u8>) -> int {
    let t = s.skip(json::blanks(s));
    let v = lex::decimal(t.take(lex::digits(t)));
    if v <= usize::MAX {
        v
    } else {
        usize::MAX as int
    }
}

/// The content length that a head names from `i` on: the first one, or none at all.
pub open spec fn content_length_from(head: Seq<u8>, i: int) -> int
    decreases head.len() - i,
{
    let name = json::text("content-length:");
    if i + name.len() > head.len() {
        0
    } else if names_at(head, i, name) {
        length_value(head.skip(i + name.len()))
    } else {
        content_length_from(head, i + 1)
    }
}

/// The content length that a head names, or zero.
pub open spec fn content_length(head: Seq<u8>) -> int {
    content_length_from(head, 0)
}

/// A head ends at `i`.
pub open spec fn is_blank_line(buf: Seq<u8>, i: int) -> bool {
    &&& 0 <= i
    &&& i + 3 < buf.len()
    &&& buf[i] == '\r' as u8
    &&& buf[i + 1] == '\n' as u8
    &&& buf[i + 2] == '\r' as u8
    &&& buf[i + 3] == '\n' as u8
}

/// Where the first head that ends at `i` or later ends.
pub open spec fn head_end_from(buf: Seq<u8>, i: int) -> Option<int>
    decreases buf.len() - i,
{
    if i + 3 >= buf.len() {
        None
    } else if is_blank_line(buf, i) {
        Some(i + 4)
    } else {
        head_end_from(buf, i + 1)
    }
}

/// The length of the request at the start of `buf`, as far as it fits, and where its body
/// starts; none where the head is not complete.
pub open spec fn request_frame(buf: Seq<u8>) -> Option<(int, int)> {
    match head_end_from(buf, 0) {
        Some(end) => {
            let total = end + content_length(buf.take(end));
            Some(
                (
                    if total <= usize::MAX {
                        total
                    } else {
                        usize::MAX as int
                    },
                    end,
                ),
            )
        },
        None => None,
    }
}

fn to_lower(b: u8) -> (r: u8)
    ensures
        r == lower(b),
{
    if 'A' as u8 <= b && b <= 'Z' as u8 {
        b + 32
    } else {
        b
    }
}

pub(crate) fn names_here(head: &[u8], i: usize, name: &[u8]) -> (r: bool)
    requires
        i + name@.len() <= head@.len(),
    ensures
        r == names_at(head@, i as int, name@),
{
    let len: usize = head.len();
    let mut j: usize = 0;
    while j < name.len()
        invariant
            j <= name@.len(),
            len == head@.len(),
            i + name@.len() <= len,
            forall|k: int| 0 <= k < j ==> lower(head@[i + k]) == lower(#[trigger] name@[k]),
        decreases name@.len() - j,
    {
        if to_lower(head[i + j]) != to_lower(name[j]) {
            assert(lower(head@[i + j]) != lower(name@[j as int]));
            return false;
        }
        j = j + 1;
    }
    true
}

fn skip_blanks(data: &[u8], pos: usize) -> (r: usize)
    requires
        pos <= data@.len(),
    ensures
        r == pos + json::blanks(data@.skip(pos as int)),
        pos <= r <= data@.len(),
{
    let ghost s = data@.skip(pos as int);
    let mut i: usize = pos;
    while i < data.len() && data[i] == ' ' as u8
        invariant
            pos <= i <= data@.len(),
            s == data@.skip(pos as int),
            forall|j: int| 0 <= j < i - pos ==> #[trigger] s[j] == ' ' as u8,
        decreases data@.len() - i,
    {
        assert(s[i - pos] == data@[i as int]);
        i = i + 1;
    }
    proof {
        lex::lemma_leading_is(s, |b: u8| b == ' ' as u8, i - pos);
    }
    i
}

/// The value of the digits in `data[from..to]`, as far as it fits.
pub(crate) fn capped_decimal(data: &[u8], from: usize, to: usize) -> (r: usize)
    requires
        from <= to <= data@.len(),
        forall|i: int| from <= i < to ==> lex::is_digit(#[trigger] data@[i]),
    ensures
        ({
            let v = lex::decimal(data@.subrange(from as int, to as int));
            r == (if v <= usize::MAX {
                v
            } else {
                usize::MAX as int
            })
        }),
{
    let max: u128 = usize::MAX as u128;
    let mut v: u128 = 0;
    let mut i: usize = from;
    assert(lex::decimal(data@.subrange(from as int, from as int)) == 0);
    while i < to
        invariant
            from <= i <= to <= data@.len(),
            max == usize::MAX,
            forall|i: int| from <= i < to ==> lex::is_digit(#[trigger] data@[i]),
            v <= max,
            ({
                let d = lex::decimal(data@.subrange(from as int, i as int));
                d >= 0 && v == (if d <= max {
                    d
                } else {
                    max as int
                })
            }),
        decreases to - i,
    {
        proof {
            assert(lex::is_digit(data@[i as int]));
            assert(data@.subrange(from as int, i + 1) =~= data@.subrange(
                from as int,
                i as int,
            ).push(data@[i as int]));
            lex::lemma_decimal_push(data@.subrange(from as int, i as int), data@[i as int]);
        }
        v = v * 10 + (data[i] - '0' as u8) as u128;
        if v > max {
            v = max;
        }
        i = i + 1;
    }
    v as usize
}

/// The content length that a head names, or zero.
pub fn content_length_fast(header: &[u8]) -> (r: usize)
    ensures
        r == content_length(header@),
{
    let name: &[u8] = "content-length:".as_bytes();
    let len: usize = header.len();
    let n: usize = name.len();
    let mut i: usize = 0;
    while i <= len && n <= len - i
        invariant
            len == header@.len(),
            n == name@.len(),
            name@ == json::text("content-length:"),
            content_length(header@) == content_length_from(header@, i as int),
            i <= len,
        decreases len - i,
    {
        if names_here(header, i, name) {
            let ghost s = header@.skip(i + n);
            let start: usize = skip_blanks(header, i + n);
            let ghost t = s.skip(json::blanks(s));
            assert(t =~= header@.skip(start as int));
            let end: usize = skip_digits(header, start);
            proof {
                lex::lemma_leading(t, |b: u8| lex::is_digit(b));
                assert(t.take(end - start) =~= header@.subrange(start as int, end as int));
                assert forall|k: int| start <= k < end implies lex::is_digit(
                    #[trigger] header@[k],
                ) by {
                    assert(t[k - start] == header@[k]);
                }
            }
            return capped_decimal(header, start, end);
        }
        if i == len {
            return 0;
        }
        i = i + 1;
    }
    0
}

/// The length of the request at the start of `buf` and where its body starts.
pub fn request_total(buf: &[u8]) -> (r: Option<(usize, usize)>)
    ensures
        match r {
            Some((total, body_start)) => {
                &&& request_frame(buf@) == Some((total as int, body_start as int))
                &&& 4 <= body_start <= buf@.len()
                &&& body_start <= total
            },
            None => request_frame(buf@) is None,
        },
{
    let len: usize = buf.len();
    let mut i: usize = 0;
    while i < len && len - i > 3
        invariant
            len == buf@.len(),
            i <= len,
            head_end_from(buf@, 0) == head_end_from(buf@, i as int),
        decreases len - i,
    {
        if buf[i] == '\r' as u8 && buf[i + 1] == '\n' as u8 && buf[i + 2] == '\r' as u8
            && buf[i + 3] == '\n' as u8 {
            let end: usize = i + 4;
            let head: &[u8] = &buf[0..end];
            assert(head@ =~= buf@.take(end as int));
            let body: usize = content_length_fast(head);
            let total: usize = if body <= usize::MAX - end { end + body } else { usize::MAX };
            return Some((total, end));
        }
        i = i + 1;
    }
    None
}

/// What a request asks for.
pub enum Route {
    /// Whether the worker is ready.
    Ready,
    /// Nothing that is known.
    NotFound,
    /// The score of something that is no transaction: it is approved.
    Fallback,
    /// The score of a transaction.
    Score(Transaction, Features),
}

/// What a request asks for, by its first bytes, and whether its body describes a
/// transaction.
pub enum Asked {
    Ready,
    NotFound,
    Fallback,
    Score(transaction::TransactionText),
}

/// The times of a transaction are times.
pub open spec fn has_times(t: transaction::TransactionText) -> bool {
    features::time_of(t) is Some && features::pause_of(t) is Some
}

pub open spec fn asked(req: Seq<u8>, body_start: int) -> Asked {
    if bytes::holds_at(req, 0, json::text("GET /ready")) {
        Asked::Ready
    } else if bytes::holds_at(req, 0, json::text("POST /fraud-score")) {
        if body_start < req.len() {
            match transaction::transaction(req.skip(body_start)) {
                Some(t) => if has_times(t) {
                    Asked::Score(t)
                } else {
                    Asked::Fallback
                },
                None => Asked::Fallback,
            }
        } else {
            Asked::Fallback
        }
    } else {
        Asked::NotFound
    }
}

/// What a request asks for.
pub fn route(req: &[u8], body_start: usize) -> (r: Route)
    ensures
        r.is_asked(asked(req@, body_start as int)),
{
    if matches_at(req, 0, "GET /ready".as_bytes()) {
        return Route::Ready;
    }
    if matches_at(req, 0, "POST /fraud-score".as_bytes()) {
        if body_start < req.len() {
            let body: &[u8] = &req[body_start..req.len()];
            assert(body@ =~= req@.skip(body_start as int));
            return match parse_transaction(body) {
                Some(tx) => match Features::of(&tx) {
                    Some(f) => Route::Score(tx, f),
                    None => Route::Fallback,
                },
                None => Route::Fallback,
            };
        }
        return Route::Fallback;
    }
    Route::NotFound
}

/// The response of a worker that can take requests.
pub fn ready_response() -> (r: Vec<u8>)
    ensures
        r@ == json::text(READY),
{
    let mut w: Vec<u8> = Vec::new();
    write_bytes(&mut w, READY.as_bytes());
    assert(w@ =~= json::text(READY));
    w
}

/// The response to an unknown route.
pub fn not_found_response() -> (r: Vec<u8>)
    ensures
        r@ == json::text(NOT_FOUND),
{
    let mut w: Vec<u8> = Vec::new();
    write_bytes(&mut w, NOT_FOUND.as_bytes());
    assert(w@ =~= json::text(NOT_FOUND));
    w
}

impl Route {
    /// The route is what was asked.
    pub open spec fn is_asked(self, a: Asked) -> bool {
        match self {
            Route::Ready => a is Ready,
            Route::NotFound => a is NotFound,
            Route::Fallback => a is Fallback,
            Route::Score(tx, f) => a == Asked::Score(tx@) && features::are_features_of(f, tx),
        }
    }

    /// The response, unless it takes a search.
    pub fn respond(&self) -> (r: Option<Vec<u8>>)
        ensures
            match self {
                Route::Ready => r matches Some(v) && v@ == json::text(READY),
                Route::NotFound => r matches Some(v) && v@ == json::text(NOT_FOUND),
                Route::Fallback => r matches Some(v) && v@ == response_text(0),
                Route::Score(_, _) => r is None,
            },
    {
        match self {
            Route::Ready => Some(ready_response()),
            Route::NotFound => Some(not_found_response()),
            Route::Fallback => Some(score_response(0)),
            Route::Score(_, _) => None,
        }
    }
}

impl Index {
    /// The response to a query.
    pub fn answer(&self, query: &QVec) -> (r: Vec<u8>)
        requires
            self.searchable(),
        ensures
            r@ == response_text(self.votes(self.run(*query)) as int),
    {
        score_response(self.search_exact(query))
    }
}

proof fn lemma_head_end_kept(buf: Seq<u8>, more: Seq<u8>, i: int)
    requires
        0 <= i,
        head_end_from(buf, i) is Some,
    ensures
        head_end_from(buf + more, i) == head_end_from(buf, i),
        4 <= head_end_from(buf, i)->0 <= buf.len(),
    decreases buf.len() - i,
{
    if !is_blank_line(buf, i) {
        assert(!is_blank_line(buf + more, i));
        lemma_head_end_kept(buf, more, i + 1);
    } else {
        assert(is_blank_line(buf + more, i));
    }
}

proof fn lemma_content_length_nonneg(head: Seq<u8>, i: int)
    ensures
        content_length_from(head, i) >= 0,
    decreases head.len() - i,
{
    let name = json::text("content-length:");
    if i + name.len() > head.len() {
    } else if names_at(head, i, name) {
        let s = head.skip(i + name.len());
        lex::lemma_leading(s, |b: u8| b == ' ' as u8);
        let t = s.skip(json::blanks(s));
        lex::lemma_leading(t, |b: u8| lex::is_digit(b));
        let d = t.take(lex::digits(t));
        assert forall|j: int| 0 <= j < d.len() implies lex::is_digit(#[trigger] d[j]) by {
            assert(d[j] == t[j]);
        }
        lex::lemma_decimal_nonneg(d);
    } else {
        lemma_content_length_nonneg(head, i + 1);
    }
}

/// A request is at least as long as its head, which has been received.
pub proof fn law_frame_bounds(buf: Seq<u8>)
    requires
        request_frame(buf) is Some,
        buf.len() <= usize::MAX,
    ensures
        ({
            let (total, body_start) = request_frame(buf)->0;
            4 <= body_start <= buf.len() && body_start <= total <= usize::MAX
        }),
{
    lemma_head_end_kept(buf, Seq::empty(), 0);
    lemma_content_length_nonneg(buf.take(head_end_from(buf, 0)->0), 0);
}

/// Once the head of a request is complete, what arrives behind it changes neither its length
/// nor where its body starts: a request is the same in however many parts it comes.
pub proof fn law_frame_is_stable(buf: Seq<u8>, more: Seq<u8>)
    requires
        request_frame(buf) is Some,
    ensures
        request_frame(buf + more) == request_frame(buf),
{
    lemma_head_end_kept(buf, more, 0);
    let end = head_end_from(buf, 0)->0;
    assert((buf + more).take(end) =~= buf.take(end));
}

pub proof fn lemma_routes_differ(req: Seq<u8>)
    requires
        bytes::holds_at(req, 0, json::text("POST /fraud-score")),
    ensures
        !bytes::holds_at(req, 0, json::text("GET /ready")),
{
    reveal_strlit("GET /ready");
    reveal_strlit("POST /fraud-score");
    vstd::string::is_ascii_spec_bytes("GET /ready");
    vstd::string::is_ascii_spec_bytes("POST /fraud-score");
    let post = json::text("POST /fraud-score");
    assert(req.subrange(0, post.len() as int)[0] == post[0]);
    let get = json::text("GET /ready");
    if bytes::holds_at(req, 0, get) {
        assert(req.subrange(0, get.len() as int)[0] == get[0]);
    }
}

/// A request for a score without a body, or with one that describes no transaction, is
/// never refused: it falls back to approval.
pub proof fn law_unreadable_payload_falls_back(req: Seq<u8>, body_start: int)
    requires
        bytes::holds_at(req, 0, json::text("POST /fraud-score")),
    ensures
        asked(req, body_start) is Fallback || asked(req, body_start) is Score,
        body_start >= req.len() ==> asked(req, body_start) is Fallback,
        transaction::transaction(req.skip(body_start)) is None ==> asked(
            req,
            body_start,
        ) is Fallback,
{
    lemma_routes_differ(req);
}

/// What is neither of the two routes is not found.
pub proof fn law_unknown_route_is_not_found(req: Seq<u8>, body_start: int)
    ensures
        asked(req, body_start) is NotFound <==> !bytes::holds_at(
            req,
            0,
            json::text("GET /ready"),
        ) && !bytes::holds_at(req, 0, json::text("POST /fraud-score")),
{
}

/// The answer to a query in the domain is that of five nearest vectors: the transaction is
/// approved if fewer than three of them are frauds.
pub proof fn law_answer_is_exact(ix: Index, q: QVec)
    requires
        ix.sound(),
        ix.nodes@.len() == 0 || ix.unlimited(),
        q.in_domain(),
    ensures
        exists|sel: Seq<int>| #[trigger]
            ix.nearest(q, sel) && response_text(ix.votes(ix.run(q)) as int) == response_text(
                ix.frauds(sel) as int,
            ),
{
    exact::law_search_is_exact(ix, q);
}

} // verus!
