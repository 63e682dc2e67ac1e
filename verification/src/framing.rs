//! Where requests end and what they are answered, stated byte by byte.
use crate::http;
use crate::http::{content_length_fast, request_total, route, score_response, Route};
use crate::index::QVec;
use crate::json;
use crate::lex;
use crate::lookup;
use crate::queries;
use crate::search::Index;
use crate::text;
use crate::transaction;
use crate::transaction::{parse_transaction, Transaction};
use vstd::prelude::*;

verus! {

/// `b` is the letter `c` of lower case, or the same letter of upper case.
pub open spec fn is_letter(b: u8, c: u8) -> bool {
    b == c || 0x61 <= c <= 0x7a && b == c - 0x20
}

/// The name of the content length, with its colon, stands at `i` in letters of any case.
pub open spec fn name_stands(head: Seq<u8>, i: int) -> bool {
    let name = json::text("content-length:");
    &&& 0 <= i
    &&& i + name.len() <= head.len()
    &&& forall|j: int| 0 <= j < name.len() ==> is_letter(head[i + j], #[trigger] name[j])
}

/// The first name stands at `i`.
pub open spec fn first_name(head: Seq<u8>, i: int) -> bool {
    name_stands(head, i) && forall|j: int| 0 <= j < i ==> !#[trigger] name_stands(head, j)
}

/// The number that fits: `n`, or the greatest there is.
pub open spec fn fitted(n: int) -> int {
    if n <= usize::MAX {
        n
    } else {
        usize::MAX as int
    }
}

proof fn lemma_name()
    ensures
        json::text("content-length:").len() == 15,
        forall|j: int|
            0 <= j < 15 ==> !(0x41 <= #[trigger] json::text("content-length:")[j] <= 0x5a),
{
    reveal_strlit("content-length:");
    vstd::string::is_ascii_spec_bytes("content-length:");
}

proof fn lemma_names_at(head: Seq<u8>, i: int)
    requires
        0 <= i,
    ensures
        http::names_at(head, i, json::text("content-length:")) <==> name_stands(head, i),
{
    let name = json::text("content-length:");
    lemma_name();
    if http::names_at(head, i, name) {
        assert forall|j: int| 0 <= j < name.len() implies is_letter(
            head[i + j],
            #[trigger] name[j],
        ) by {
            assert(http::lower(head[i + j]) == http::lower(name[j]));
        }
    }
    if name_stands(head, i) {
        assert forall|j: int| 0 <= j < name.len() implies http::lower(head[i + j]) == http::lower(
            #[trigger] name[j],
        ) by {
            assert(is_letter(head[i + j], name[j]));
        }
    }
}

proof fn lemma_content_length_from(head: Seq<u8>, k: int, i: int)
    requires
        0 <= k,
        forall|j: int| k <= j < i ==> !#[trigger] name_stands(head, j),
        k <= i && name_stands(head, i) || i > head.len(),
    ensures
        i <= head.len() ==> http::content_length_from(head, k) == http::length_value(
            head.skip(i + 15),
        ),
        i > head.len() ==> http::content_length_from(head, k) == 0,
    decreases i - k,
{
    lemma_name();
    lemma_names_at(head, k);
    if k < i && k + 15 <= head.len() {
        assert(!name_stands(head, k));
        lemma_content_length_from(head, k + 1, i);
    }
}

proof fn lemma_length_value(spaces: Seq<u8>, digits: Seq<u8>, rest: Seq<u8>)
    requires
        forall|j: int| 0 <= j < spaces.len() ==> #[trigger] spaces[j] == 0x20,
        text::are_figures(digits),
        !text::begins(rest, |b: u8| text::is_figure(b)),
        digits.len() == 0 ==> !text::begins(rest, |b: u8| b == 0x20),
    ensures
        http::length_value(spaces + digits + rest) == fitted(text::worth(digits)),
{
    let s = spaces + digits + rest;
    let t = digits + rest;
    let space = |b: u8| b == ' ' as u8;
    assert(s =~= spaces + t);
    assert forall|j: int| 0 <= j < spaces.len() implies space(#[trigger] s[j]) by {
        assert(s[j] == spaces[j]);
    }
    if t.len() > 0 {
        assert(s[spaces.len() as int] == t[0]);
        if digits.len() > 0 {
            assert(text::is_figure(digits[0]));
            assert(t[0] == digits[0]);
        }
    }
    lex::lemma_leading_is(s, space, spaces.len() as int);
    assert(s.skip(spaces.len() as int) =~= t);
    text::lemma_figures_end(digits, rest);
    text::lemma_decimal_is_worth(digits);
}

/// The content length is what the figures behind the first name are worth, whatever the case
/// of its letters and however many spaces there are; without the name it is zero, and what
/// does not fit is the greatest length there is.
pub proof fn law_content_length_is_worth_its_figures(
    head: &[u8],
    r: usize,
    i: int,
    spaces: Seq<u8>,
    digits: Seq<u8>,
    rest: Seq<u8>,
)
    requires
        call_ensures(content_length_fast, (head,), r),
    ensures
        (forall|j: int| 0 <= j ==> !#[trigger] name_stands(head@, j)) ==> r == 0,
        ({
            &&& first_name(head@, i)
            &&& head@.skip(i + 15) == spaces + digits + rest
            &&& forall|j: int| 0 <= j < spaces.len() ==> #[trigger] spaces[j] == 0x20
            &&& text::are_figures(digits)
            &&& !text::begins(rest, |b: u8| text::is_figure(b))
            &&& digits.len() == 0 ==> !text::begins(rest, |b: u8| b == 0x20)
        }) ==> r == fitted(text::worth(digits)),
{
    if forall|j: int| 0 <= j ==> !#[trigger] name_stands(head@, j) {
        lemma_content_length_from(head@, 0, head@.len() as int + 1);
    }
    if {
        &&& first_name(head@, i)
        &&& head@.skip(i + 15) == spaces + digits + rest
        &&& forall|j: int| 0 <= j < spaces.len() ==> #[trigger] spaces[j] == 0x20
        &&& text::are_figures(digits)
        &&& !text::begins(rest, |b: u8| text::is_figure(b))
        &&& digits.len() == 0 ==> !text::begins(rest, |b: u8| b == 0x20)
    } {
        lemma_name();
        lemma_content_length_from(head@, 0, i);
        lemma_length_value(spaces, digits, rest);
    }
}

/// The head of a request ends at `e`: behind the first empty line.
pub open spec fn head_ends(buf: Seq<u8>, e: int) -> bool {
    &&& line_is_empty(buf, e)
    &&& forall|k: int| k < e ==> !#[trigger] line_is_empty(buf, k)
}

/// Two line ends stand before `e`.
pub open spec fn line_is_empty(buf: Seq<u8>, e: int) -> bool {
    &&& 4 <= e <= buf.len()
    &&& buf[e - 4] == 0x0d && buf[e - 3] == 0x0a && buf[e - 2] == 0x0d && buf[e - 1] == 0x0a
}

proof fn lemma_head_end(buf: Seq<u8>, i: int)
    requires
        0 <= i,
        forall|k: int| k < i + 4 ==> !#[trigger] line_is_empty(buf, k),
    ensures
        match http::head_end_from(buf, i) {
            Some(e) => head_ends(buf, e),
            None => forall|k: int| !#[trigger] line_is_empty(buf, k),
        },
    decreases buf.len() - i,
{
    if i + 3 < buf.len() {
        assert(http::is_blank_line(buf, i) <==> line_is_empty(buf, i + 4));
        if !http::is_blank_line(buf, i) {
            lemma_head_end(buf, i + 1);
        }
    }
}

/// A request is complete in its head once the first empty line is there, its body starts
/// behind that line, and it is as long as the head and the length that the head names.
pub proof fn law_request_is_its_head_and_the_length_it_names(
    buf: &[u8],
    r: Option<(usize, usize)>,
    head: &[u8],
    n: usize,
)
    requires
        call_ensures(request_total, (buf,), r),
        call_ensures(content_length_fast, (head,), n),
    ensures
        r is None <==> forall|e: int| !#[trigger] line_is_empty(buf@, e),
        r matches Some((total, start)) ==> {
            &&& head_ends(buf@, start as int)
            &&& head@ == buf@.take(start as int) ==> total == fitted(start + n)
        },
{
    lemma_head_end(buf@, 0);
    if r is Some {
        let e = http::head_end_from(buf@, 0)->0;
        assert(line_is_empty(buf@, e));
    }
}

/// A request whose head names the length `n` in figures has a body of `n` bytes.
pub proof fn law_named_length_is_that_of_the_body(
    buf: &[u8],
    r: Option<(usize, usize)>,
    before: Seq<u8>,
    name: Seq<u8>,
    spaces: Seq<u8>,
    n: nat,
    between: Seq<u8>,
    body: Seq<u8>,
)
    requires
        call_ensures(request_total, (buf,), r),
        buf@ == before + name + spaces + text::numeral(n) + between + body,
        ({
            let head = before + name + spaces + text::numeral(n) + between;
            &&& head_ends(buf@, head.len() as int)
            &&& first_name(head, before.len() as int)
        }),
        name.len() == 15,
        forall|j: int| 0 <= j < spaces.len() ==> #[trigger] spaces[j] == 0x20,
        !text::begins(between, |b: u8| text::is_figure(b)),
    ensures
        ({
            let end = before.len() + name.len() + spaces.len() + text::numeral(n).len()
                + between.len();
            r == Some((fitted(end + fitted(n as int)) as usize, end as usize))
        }),
{
    let digits = text::numeral(n);
    let head = before + name + spaces + digits + between;
    let end = head.len() as int;
    text::lemma_numeral(n);
    lemma_head_end(buf@, 0);
    let e = http::head_end_from(buf@, 0)->0;
    assert(line_is_empty(buf@, end));
    if e < end {
        assert(!line_is_empty(buf@, e));
    }
    if end < e {
        assert(!line_is_empty(buf@, end));
    }
    assert(buf@.take(end) =~= head);
    lemma_name();
    lemma_content_length_from(head, 0, before.len() as int);
    assert(head.skip(before.len() as int + 15) =~= spaces + digits + between);
    lemma_length_value(spaces, digits, between);
}

/// A request is routed by its first bytes. One for a score is scored exactly where it has a
/// body that describes a transaction whose times are times, with that very transaction and
/// its features; otherwise it falls back.
pub proof fn law_request_is_routed_by_what_it_says(
    req: &[u8],
    body_start: usize,
    r: Route,
    body: &[u8],
    t: Option<Transaction>,
)
    requires
        call_ensures(route, (req, body_start), r),
        call_ensures(parse_transaction, (body,), t),
        body@ == req@.skip(body_start as int),
    ensures
        r is Ready <==> lookup::word_stands(req@, 0, json::text("GET /ready")),
        r is Fallback || r is Score <==> lookup::word_stands(
            req@,
            0,
            json::text("POST /fraud-score"),
        ),
        lookup::word_stands(req@, 0, json::text("POST /fraud-score")) ==> (r is Score <==> {
            &&& body_start < req@.len()
            &&& t matches Some(tx) && queries::times_are_times(tx@)
        }),
        r matches Route::Score(tx, f) ==> {
            &&& t is Some && t->0@ == tx@
            &&& queries::describes(f, tx)
        },
{
    lookup::lemma_holds(req@, 0, json::text("GET /ready"));
    lookup::lemma_holds(req@, 0, json::text("POST /fraud-score"));
    if lookup::word_stands(req@, 0, json::text("POST /fraud-score")) {
        http::lemma_routes_differ(req@);
    }
    if t is Some {
        queries::lemma_times(t->0@);
    }
    match r {
        Route::Score(tx, f) => queries::lemma_describes(f, tx),
        _ => {},
    }
}

/// What needs no search is answered at once: readiness, the unknown route, and the fallback as
/// if no neighbour were a fraud.
pub proof fn law_routes_have_their_responses(
    route: Route,
    r: Option<Vec<u8>>,
    ready: Vec<u8>,
    missing: Vec<u8>,
    approved: Vec<u8>,
)
    requires
        call_ensures(Route::respond, (&route,), r),
        call_ensures(http::ready_response, (), ready),
        call_ensures(http::not_found_response, (), missing),
        call_ensures(score_response, (0,), approved),
    ensures
        route is Score <==> r is None,
        route is Ready ==> r->0@ == ready@,
        route is NotFound ==> r->0@ == missing@,
        route is Fallback ==> r->0@ == approved@,
{
}

/// A query is answered with the response for the number of frauds that its search counts.
pub proof fn law_answer_is_that_of_the_search(
    ix: Index,
    q: QVec,
    r: Vec<u8>,
    n: u32,
    response: Vec<u8>,
)
    requires
        call_ensures(Index::answer, (&ix, &q), r),
        call_ensures(Index::search_exact, (&ix, &q), n),
        call_ensures(score_response, (n,), response),
    ensures
        r@ == response@,
{
}

} // verus!
