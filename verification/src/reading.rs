//! What is read of a transaction, field by field, from the bytes of a request.
use crate::json;
use crate::json::NumberText;
use crate::lex;
use crate::lookup;
use crate::text;
use crate::transaction;
use crate::transaction::{parse_transaction, Transaction, TransactionText};
use vstd::prelude::*;

verus! {

/// `k` is `s`, or its first `n` bytes where it has more.
pub open spec fn is_cut(k: Seq<u8>, s: Seq<u8>, n: int) -> bool {
    &&& k.len() == if s.len() <= n {
        s.len() as int
    } else {
        n
    }
    &&& forall|i: int| 0 <= i < k.len() ==> #[trigger] k[i] == s[i]
}

/// No figure at all.
pub open spec fn no_figure() -> NumberText {
    NumberText { negative: false, whole: Seq::empty(), fraction: Seq::empty() }
}

/// The figure one.
pub open spec fn figure_one() -> NumberText {
    NumberText { negative: false, whole: seq![0x31u8], fraction: Seq::empty() }
}

/// `n` stands under the first `key` from `from` on; without the key it is `otherwise`.
pub open spec fn says_number(
    body: Seq<u8>,
    key: Seq<u8>,
    from: int,
    n: NumberText,
    otherwise: NumberText,
) -> bool {
    &&& forall|p: int| #[trigger]
        lookup::first_value(body, key, from, p) ==> lookup::number_stands(body, p, n)
    &&& lookup::no_value(body, key, from) ==> n == otherwise
}

/// `s` stands under the first `key` from `from` on, cut to `max` bytes; without the key it is
/// empty.
pub open spec fn says_text(
    body: Seq<u8>,
    key: Seq<u8>,
    from: int,
    s: Seq<u8>,
    max: int,
) -> bool {
    &&& forall|p: int, t: Seq<u8>|
        #![trigger lookup::first_value(body, key, from, p), lookup::text_stands(body, p, t)]
        lookup::first_value(body, key, from, p) && lookup::text_stands(body, p, t) ==> is_cut(
            s,
            t,
            max,
        )
    &&& lookup::no_value(body, key, from) ==> s.len() == 0
}

/// Whether the word `true` stands under the first `key` from `from` on; without the key it is
/// `otherwise`.
pub open spec fn says_bool(
    body: Seq<u8>,
    key: Seq<u8>,
    from: int,
    b: bool,
    otherwise: bool,
) -> bool {
    &&& forall|p: int| #[trigger]
        lookup::first_value(body, key, from, p) ==> (b <==> lookup::word_stands(
            body,
            p,
            lookup::yes(),
        ))
    &&& lookup::no_value(body, key, from) ==> b == otherwise
}

/// White space and commas reach from `i` to `j`, and no further.
pub open spec fn gap_reaches(body: Seq<u8>, i: int, j: int) -> bool {
    &&& i <= j
    &&& j <= body.len() || j == i
    &&& forall|k: int|
        i <= k < j ==> text::is_blank(#[trigger] body[k]) || body[k] == 0x2c
    &&& j < body.len() ==> !text::is_blank(body[j]) && body[j] != 0x2c
}

/// The items of a list stand from `i` on: between white space and commas, each in quotes and
/// cut to sixteen bytes, up to the closing bracket or the end of the text, and at most `room`
/// of them.
pub open spec fn items_stand(body: Seq<u8>, i: int, items: Seq<Seq<u8>>, room: int) -> bool
    decreases items.len(),
{
    forall|j: int, t: Seq<u8>|
        #![trigger gap_reaches(body, i, j), lookup::text_stands(body, j, t)]
        gap_reaches(body, i, j) && lookup::text_stands(body, j, t) ==> if room <= 0 || j
            >= body.len() || body[j] == 0x5d {
            items.len() == 0
        } else {
            &&& items.len() > 0
            &&& is_cut(items[0], t, 16)
            &&& items_stand(
                body,
                if body[j] != 0x22 {
                    j
                } else if j + 1 + t.len() < body.len() {
                    j + 2 + t.len()
                } else {
                    body.len() as int
                },
                items.skip(1),
                room - 1,
            )
        }
}

/// The list under the first `key` from `from` on, up to 32 items; without the key, and where
/// no bracket stands, it is empty.
pub open spec fn says_list(body: Seq<u8>, key: Seq<u8>, from: int, items: Seq<Seq<u8>>) -> bool {
    &&& forall|p: int| #[trigger]
        lookup::first_value(body, key, from, p) ==> if p < body.len() && body[p] == 0x5b {
            items_stand(body, p + 1, items, 32)
        } else {
            items.len() == 0
        }
    &&& lookup::no_value(body, key, from) ==> items.len() == 0
}

/// The number is greater than zero.
pub open spec fn above_zero(n: NumberText) -> bool {
    !n.negative && text::worth(n.whole + n.fraction) > 0
}

/// What the section `transaction`, whose value is at `at`, says.
pub open spec fn says_transaction(body: Seq<u8>, at: int, t: TransactionText) -> bool {
    &&& says_number(body, json::text("amount"), at, t.amount, no_figure())
    &&& says_number(body, json::text("installments"), at, t.installments, figure_one())
    &&& says_text(body, json::text("requested_at"), at, t.requested_at, 20)
}

/// What the section `customer`, whose value is at `at`, says. An average that is not above
/// zero counts as one.
pub open spec fn says_customer(body: Seq<u8>, at: int, t: TransactionText) -> bool {
    &&& exists|n: NumberText| #[trigger]
        says_number(body, json::text("avg_amount"), at, n, figure_one()) && t.avg_amount
            == if above_zero(n) {
            n
        } else {
            figure_one()
        }
    &&& says_number(body, json::text("tx_count_24h"), at, t.tx_count_24h, no_figure())
    &&& says_list(body, json::text("known_merchants"), at, t.known_merchants)
}

/// What the section `merchant`, whose value is at `at`, says.
pub open spec fn says_merchant(body: Seq<u8>, at: int, t: TransactionText) -> bool {
    &&& says_text(body, json::text("id"), at, t.merchant_id, 16)
    &&& says_text(body, json::text("mcc"), at, t.mcc, 8)
    &&& says_number(body, json::text("avg_amount"), at, t.merchant_avg_amount, no_figure())
}

/// What the section `terminal`, whose value is at `at`, says.
pub open spec fn says_terminal(body: Seq<u8>, at: int, t: TransactionText) -> bool {
    &&& says_bool(body, json::text("is_online"), at, t.is_online, false)
    &&& says_bool(body, json::text("card_present"), at, t.card_present, true)
    &&& says_number(body, json::text("km_from_home"), at, t.km_from_home, no_figure())
}

/// What the section `last_transaction` says: nothing, where it is null or missing.
pub open spec fn says_last(body: Seq<u8>, t: TransactionText) -> bool {
    let key = json::text("last_transaction");
    &&& forall|p: int| #[trigger]
        lookup::first_value(body, key, 0, p) ==> {
            &&& t.has_last_tx <==> !lookup::word_stands(body, p, lookup::nothing())
            &&& t.has_last_tx ==> {
                &&& says_text(body, json::text("timestamp"), p, t.last_timestamp, 20)
                &&& says_number(body, json::text("km_from_current"), p, t.km_from_last, no_figure())
            }
        }
    &&& lookup::no_value(body, key, 0) ==> !t.has_last_tx
    &&& !t.has_last_tx ==> t.last_timestamp.len() == 0 && t.km_from_last == no_figure()
}

/// Some section that a transaction needs is missing.
pub open spec fn lacks_a_section(body: Seq<u8>) -> bool {
    ||| lookup::no_value(body, json::text("transaction"), 0)
    ||| lookup::no_value(body, json::text("customer"), 0)
    ||| lookup::no_value(body, json::text("merchant"), 0)
    ||| lookup::no_value(body, json::text("terminal"), 0)
}

proof fn lemma_number(body: Seq<u8>, key: Seq<u8>, from: int, otherwise: NumberText)
    requires
        0 <= from,
    ensures
        says_number(
            body,
            key,
            from,
            transaction::number_under(body, key, from, otherwise),
            otherwise,
        ),
{
    lookup::lemma_first_is_found(body, key, from);
    assert forall|p: int| #[trigger]
        lookup::first_value(body, key, from, p) implies lookup::number_stands(
        body,
        p,
        transaction::number_under(body, key, from, otherwise),
    ) by {
        lookup::lemma_number_at(body, p);
    }
}

proof fn lemma_clipped(s: Seq<u8>, n: int)
    requires
        n >= 0,
    ensures
        is_cut(transaction::clipped(s, n), s, n),
{
}

proof fn lemma_text(body: Seq<u8>, key: Seq<u8>, from: int, max: int)
    requires
        0 <= from,
        0 <= max,
    ensures
        says_text(body, key, from, transaction::text_under(body, key, from, max), max),
{
    lookup::lemma_first_is_found(body, key, from);
    let s = transaction::text_under(body, key, from, max);
    assert forall|p: int, t: Seq<u8>|
        #![trigger lookup::first_value(body, key, from, p), lookup::text_stands(body, p, t)]
        lookup::first_value(body, key, from, p) && lookup::text_stands(body, p, t) implies is_cut(
        s,
        t,
        max,
    ) by {
        lookup::lemma_string_at(body, p);
        lookup::lemma_one_text(body, p, t, json::string_at(body, p).0);
        lemma_clipped(t, max);
    }
}

proof fn lemma_bool(body: Seq<u8>, key: Seq<u8>, from: int, otherwise: bool)
    requires
        0 <= from,
    ensures
        says_bool(
            body,
            key,
            from,
            transaction::bool_under(body, key, from, otherwise),
            otherwise,
        ),
{
    lookup::lemma_first_is_found(body, key, from);
    assert forall|p: int| #[trigger] lookup::first_value(body, key, from, p) implies (
    transaction::bool_under(body, key, from, otherwise) <==> lookup::word_stands(
        body,
        p,
        lookup::yes(),
    )) by {
        lookup::lemma_bool_at(body, p);
    }
}

/// Where the gap from `i` on ends.
proof fn lemma_gap(body: Seq<u8>, i: int, j: int)
    requires
        0 <= i <= body.len(),
        gap_reaches(body, i, j),
    ensures
        j == i + lex::leading(body.skip(i), |b: u8| transaction::is_separator(b)),
{
    let s = body.skip(i);
    let class = |b: u8| transaction::is_separator(b);
    assert forall|k: int| 0 <= k < j - i implies class(#[trigger] s[k]) by {
        assert(s[k] == body[i + k]);
    }
    if j < body.len() {
        assert(s[j - i] == body[j]);
    }
    lex::lemma_leading_is(s, class, j - i);
}

proof fn lemma_items(body: Seq<u8>, i: int, n: nat)
    requires
        0 <= i <= body.len(),
    ensures
        items_stand(body, i, transaction::list_from(body, i, n), n as int),
    decreases n,
{
    let items = transaction::list_from(body, i, n);
    assert forall|j: int, t: Seq<u8>|
        #![trigger gap_reaches(body, i, j), lookup::text_stands(body, j, t)]
        gap_reaches(body, i, j) && lookup::text_stands(body, j, t) implies if n <= 0 || j
        >= body.len() || body[j] == 0x5d {
        items.len() == 0
    } else {
        &&& items.len() > 0
        &&& is_cut(items[0], t, 16)
        &&& items_stand(
            body,
            if body[j] != 0x22 {
                j
            } else if j + 1 + t.len() < body.len() {
                j + 2 + t.len()
            } else {
                body.len() as int
            },
            items.skip(1),
            n - 1,
        )
    } by {
        lemma_gap(body, i, j);
        if n > 0 && j < body.len() && body[j] != 0x5d {
            let (s, end) = json::string_at(body, j);
            lookup::lemma_string_at(body, j);
            lookup::lemma_one_text(body, j, s, t);
            lemma_clipped(s, 16);
            let rest = transaction::list_from(body, end, (n - 1) as nat);
            assert(items[0] == transaction::clipped(s, 16));
            assert(items.skip(1) =~= rest);
            lemma_items(body, end, (n - 1) as nat);
        }
    }
}

proof fn lemma_list(body: Seq<u8>, key: Seq<u8>, from: int)
    requires
        0 <= from,
    ensures
        says_list(body, key, from, transaction::list_under(body, key, from)),
{
    lookup::lemma_first_is_found(body, key, from);
    assert forall|p: int| #[trigger] lookup::first_value(body, key, from, p) implies if p
        < body.len() && body[p] == 0x5b {
        items_stand(body, p + 1, transaction::list_under(body, key, from), 32)
    } else {
        transaction::list_under(body, key, from).len() == 0
    } by {
        if p < body.len() && body[p] == 0x5b {
            lemma_items(body, p + 1, 32);
        }
    }
}

proof fn lemma_has_value(s: Seq<u8>)
    requires
        text::are_figures(s),
    ensures
        transaction::has_value(s) <==> text::worth(s) > 0,
    decreases s.len(),
{
    text::lemma_worth_bounds(s);
    if s.len() > 0 {
        let t = s.skip(1);
        assert forall|i: int| 0 <= i < t.len() implies text::is_figure(#[trigger] t[i]) by {
            assert(t[i] == s[i + 1]);
        }
        lemma_has_value(t);
        text::lemma_worth_bounds(t);
        let k = text::ten_to((s.len() - 1) as nat);
        text::lemma_ten_to_positive((s.len() - 1) as nat);
        assert(text::is_figure(s[0]));
        let x = s[0] - 0x30;
        if x > 0 {
            assert(x * k > 0) by (nonlinear_arith)
                requires
                    x > 0,
                    k >= 1,
            ;
            assert(s[0] != '0' as u8);
        } else {
            assert(x * k == 0) by (nonlinear_arith)
                requires
                    x == 0,
            ;
        }
        if transaction::has_value(t) {
            let i = choose|i: int| 0 <= i < t.len() && #[trigger] t[i] != '0' as u8;
            assert(s[i + 1] != '0' as u8);
        }
        if transaction::has_value(s) && x == 0 {
            let i = choose|i: int| 0 <= i < s.len() && #[trigger] s[i] != '0' as u8;
            assert(t[i - 1] != '0' as u8);
        }
    }
}

proof fn lemma_above_zero(n: NumberText)
    requires
        text::are_figures(n.whole),
        text::are_figures(n.fraction),
    ensures
        transaction::is_positive(n) <==> above_zero(n),
{
    lemma_has_value(n.whole);
    lemma_has_value(n.fraction);
    text::lemma_worth_bounds(n.whole);
    text::lemma_worth_bounds(n.fraction);
    text::lemma_worth_concat(n.whole, n.fraction);
    let k = text::ten_to(n.fraction.len());
    let w = text::worth(n.whole);
    text::lemma_ten_to_positive(n.fraction.len());
    assert(w > 0 ==> w * k > 0) by (nonlinear_arith)
        requires
            k >= 1,
    ;
    assert(w == 0 ==> w * k == 0) by (nonlinear_arith);
}

proof fn lemma_average(body: Seq<u8>, key: Seq<u8>, from: int) -> (n: NumberText)
    requires
        0 <= from,
    ensures
        says_number(body, key, from, n, figure_one()),
        n == transaction::number_under(body, key, from, figure_one()),
        transaction::positive_or_one(n) == if above_zero(n) {
            n
        } else {
            figure_one()
        },
{
    let n = transaction::number_under(body, key, from, figure_one());
    lemma_number(body, key, from, figure_one());
    lookup::lemma_find(body, key, from);
    match json::find(body, key, from) {
        Some(p) => {
            assert(lookup::first_value(body, key, from, p));
        },
        None => {
            assert(text::are_figures(figure_one().whole));
        },
    }
    lemma_above_zero(n);
    n
}

proof fn lemma_sections(body: Seq<u8>, key: Seq<u8>)
    ensures
        forall|p: int| #[trigger]
            lookup::first_value(body, key, 0, p) ==> json::find(body, key, 0) == Some(p) && 0 <= p,
        lookup::no_value(body, key, 0) <==> json::find(body, key, 0) is None,
{
    lookup::lemma_first_is_found(body, key, 0);
    lookup::lemma_find(body, key, 0);
}

/// A transaction is read exactly where all four sections are there.
pub proof fn law_four_sections_make_a_transaction(body: &[u8], r: Option<Transaction>)
    requires
        call_ensures(parse_transaction, (body,), r),
    ensures
        r is None <==> lacks_a_section(body@),
{
    lemma_sections(body@, json::text("transaction"));
    lemma_sections(body@, json::text("customer"));
    lemma_sections(body@, json::text("merchant"));
    lemma_sections(body@, json::text("terminal"));
}

/// Every field of a transaction is what the body says in its section.
pub proof fn law_transaction_is_what_the_body_says(body: &[u8], r: Option<Transaction>)
    requires
        call_ensures(parse_transaction, (body,), r),
    ensures
        r matches Some(tx) ==> {
            &&& forall|p: int| #[trigger]
                lookup::first_value(body@, json::text("transaction"), 0, p) ==> says_transaction(
                    body@,
                    p,
                    tx@,
                )
            &&& forall|p: int| #[trigger]
                lookup::first_value(body@, json::text("customer"), 0, p) ==> says_customer(
                    body@,
                    p,
                    tx@,
                )
            &&& forall|p: int| #[trigger]
                lookup::first_value(body@, json::text("merchant"), 0, p) ==> says_merchant(
                    body@,
                    p,
                    tx@,
                )
            &&& forall|p: int| #[trigger]
                lookup::first_value(body@, json::text("terminal"), 0, p) ==> says_terminal(
                    body@,
                    p,
                    tx@,
                )
            &&& says_last(body@, tx@)
        },
{
    let b = body@;
    assert(json::zero() == no_figure());
    assert(json::one() == figure_one());
    if r is Some {
        let t = r->0@;
        assert forall|p: int| #[trigger]
            lookup::first_value(b, json::text("transaction"), 0, p) implies says_transaction(
            b,
            p,
            t,
        ) by {
            lemma_sections(b, json::text("transaction"));
            lemma_number(b, json::text("amount"), p, no_figure());
            lemma_number(b, json::text("installments"), p, figure_one());
            lemma_text(b, json::text("requested_at"), p, 20);
        }
        assert forall|p: int| #[trigger]
            lookup::first_value(b, json::text("customer"), 0, p) implies says_customer(b, p, t) by {
            lemma_sections(b, json::text("customer"));
            let n = lemma_average(b, json::text("avg_amount"), p);
            assert(says_number(b, json::text("avg_amount"), p, n, figure_one()));
            lemma_number(b, json::text("tx_count_24h"), p, no_figure());
            lemma_list(b, json::text("known_merchants"), p);
        }
        assert forall|p: int| #[trigger]
            lookup::first_value(b, json::text("merchant"), 0, p) implies says_merchant(b, p, t) by {
            lemma_sections(b, json::text("merchant"));
            lemma_text(b, json::text("id"), p, 16);
            lemma_text(b, json::text("mcc"), p, 8);
            lemma_number(b, json::text("avg_amount"), p, no_figure());
        }
        assert forall|p: int| #[trigger]
            lookup::first_value(b, json::text("terminal"), 0, p) implies says_terminal(b, p, t) by {
            lemma_sections(b, json::text("terminal"));
            lemma_bool(b, json::text("is_online"), p, false);
            lemma_bool(b, json::text("card_present"), p, true);
            lemma_number(b, json::text("km_from_home"), p, no_figure());
        }
        assert(says_last(b, t)) by {
            let key = json::text("last_transaction");
            lemma_sections(b, key);
            assert forall|p: int| #[trigger] lookup::first_value(b, key, 0, p) implies {
                &&& t.has_last_tx <==> !lookup::word_stands(b, p, lookup::nothing())
                &&& t.has_last_tx ==> {
                    &&& says_text(b, json::text("timestamp"), p, t.last_timestamp, 20)
                    &&& says_number(
                        b,
                        json::text("km_from_current"),
                        p,
                        t.km_from_last,
                        no_figure(),
                    )
                }
            } by {
                lookup::lemma_bool_at(b, p);
                lemma_text(b, json::text("timestamp"), p, 20);
                lemma_number(b, json::text("km_from_current"), p, no_figure());
            }
        }
    }
}

} // verus!
