//! The transaction that a request describes.
use crate::bytes;
use crate::json;
use crate::json::{
    copied, find_key, find_section, is_json_null, parse_json_bool, parse_json_float,
    parse_json_string, Decimal, NumberText,
};
use crate::lex;
use vstd::prelude::*;

verus! {

/// The most bytes that are kept of a point in time.
pub const TIME_BYTES: usize = 20;

/// The most known merchants that are kept.
pub const KNOWN_MERCHANTS: usize = 32;

/// The most bytes that are kept of a merchant's name.
pub const MERCHANT_BYTES: usize = 16;

/// The most bytes that are kept of a merchant category.
pub const MCC_BYTES: usize = 8;

/// A transaction: numbers as they are written, texts as far as they are kept.
pub struct Transaction {
    pub amount: Decimal,
    pub installments: Decimal,
    pub requested_at: Vec<u8>,
    pub avg_amount: Decimal,
    pub tx_count_24h: Decimal,
    pub known_merchants: Vec<Vec<u8>>,
    pub merchant_id: Vec<u8>,
    pub mcc: Vec<u8>,
    pub merchant_avg_amount: Decimal,
    pub is_online: bool,
    pub card_present: bool,
    pub km_from_home: Decimal,
    pub has_last_tx: bool,
    pub last_timestamp: Vec<u8>,
    pub km_from_last: Decimal,
}

/// What a request says of a transaction.
pub struct TransactionText {
    pub amount: NumberText,
    pub installments: NumberText,
    pub requested_at: Seq<u8>,
    pub avg_amount: NumberText,
    pub tx_count_24h: NumberText,
    pub known_merchants: Seq<Seq<u8>>,
    pub merchant_id: Seq<u8>,
    pub mcc: Seq<u8>,
    pub merchant_avg_amount: NumberText,
    pub is_online: bool,
    pub card_present: bool,
    pub km_from_home: NumberText,
    pub has_last_tx: bool,
    pub last_timestamp: Seq<u8>,
    pub km_from_last: NumberText,
}

/// The contents of a list of texts.
pub open spec fn texts(v: Seq<Vec<u8>>) -> Seq<Seq<u8>> {
    v.map_values(|t: Vec<u8>| t@)
}

impl View for Transaction {
    type V = TransactionText;

    open spec fn view(&self) -> TransactionText {
        TransactionText {
            amount: self.amount@,
            installments: self.installments@,
            requested_at: self.requested_at@,
            avg_amount: self.avg_amount@,
            tx_count_24h: self.tx_count_24h@,
            known_merchants: texts(self.known_merchants@),
            merchant_id: self.merchant_id@,
            mcc: self.mcc@,
            merchant_avg_amount: self.merchant_avg_amount@,
            is_online: self.is_online,
            card_present: self.card_present,
            km_from_home: self.km_from_home@,
            has_last_tx: self.has_last_tx,
            last_timestamp: self.last_timestamp@,
            km_from_last: self.km_from_last@,
        }
    }
}

/// `s`, cut to `max` bytes.
pub open spec fn clipped(s: Seq<u8>, max: int) -> Seq<u8> {
    if s.len() > max {
        s.take(max)
    } else {
        s
    }
}

/// The number under the first `key` from `from` on.
pub open spec fn number_under(
    body: Seq<u8>,
    key: Seq<u8>,
    from: int,
    otherwise: NumberText,
) -> NumberText {
    match json::find(body, key, from) {
        Some(p) => json::number_at(body, p).0,
        None => otherwise,
    }
}

/// Some digit is not zero.
pub open spec fn has_value(digits: Seq<u8>) -> bool {
    exists|i: int| 0 <= i < digits.len() && #[trigger] digits[i] != '0' as u8
}

/// The number is greater than zero.
pub open spec fn is_positive(n: NumberText) -> bool {
    !n.negative && (has_value(n.whole) || has_value(n.fraction))
}

/// `n`, or one where it is not positive: a number that can be divided by.
pub open spec fn positive_or_one(n: NumberText) -> NumberText {
    if is_positive(n) {
        n
    } else {
        json::one()
    }
}

/// The text under the first `key` from `from` on, cut to `max` bytes.
pub open spec fn text_under(body: Seq<u8>, key: Seq<u8>, from: int, max: int) -> Seq<u8> {
    match json::find(body, key, from) {
        Some(p) => clipped(json::string_at(body, p).0, max),
        None => Seq::empty(),
    }
}

/// The boolean under the first `key` from `from` on.
pub open spec fn bool_under(body: Seq<u8>, key: Seq<u8>, from: int, otherwise: bool) -> bool {
    match json::find(body, key, from) {
        Some(p) => json::bool_at(body, p).0,
        None => otherwise,
    }
}

/// What stands between the items of a list.
pub open spec fn is_separator(b: u8) -> bool {
    lex::is_space(b) || b == ',' as u8
}

/// The texts of the list whose items start at `i`, at most `n` of them.
pub open spec fn list_from(body: Seq<u8>, i: int, n: nat) -> Seq<Seq<u8>>
    decreases n,
{
    let j = i + lex::leading(body.skip(i), |b: u8| is_separator(b));
    if n == 0 || j >= body.len() || body[j] == ']' as u8 {
        Seq::empty()
    } else {
        let (s, end) = json::string_at(body, j);
        seq![clipped(s, MERCHANT_BYTES as int)] + list_from(body, end, (n - 1) as nat)
    }
}

/// The texts of the list under the first `key` from `from` on.
pub open spec fn list_under(body: Seq<u8>, key: Seq<u8>, from: int) -> Seq<Seq<u8>> {
    match json::find(body, key, from) {
        Some(p) => if p < body.len() && body[p] == '[' as u8 {
            list_from(body, p + 1, KNOWN_MERCHANTS as nat)
        } else {
            Seq::empty()
        },
        None => Seq::empty(),
    }
}

/// Where the value of a section starts.
pub open spec fn section(body: Seq<u8>, name: &str) -> Option<int> {
    json::find(body, json::text(name), 0)
}

/// The previous transaction, if the request names one.
pub open spec fn last_transaction(body: Seq<u8>) -> Option<int> {
    match section(body, "last_transaction") {
        Some(p) => if bytes::holds_at(body, p, json::text("null")) {
            None
        } else {
            Some(p)
        },
        None => None,
    }
}

/// The transaction that `body` describes: there is one if it has the four sections. What a
/// section does not say has a default.
pub open spec fn transaction(body: Seq<u8>) -> Option<TransactionText> {
    match (
        section(body, "transaction"),
        section(body, "customer"),
        section(body, "merchant"),
        section(body, "terminal"),
    ) {
        (Some(tx), Some(customer), Some(merchant), Some(terminal)) => {
            let last = last_transaction(body);
            Some(
                TransactionText {
                    amount: number_under(body, json::text("amount"), tx, json::zero()),
                    installments: number_under(body, json::text("installments"), tx, json::one()),
                    requested_at: text_under(
                        body,
                        json::text("requested_at"),
                        tx,
                        TIME_BYTES as int,
                    ),
                    avg_amount: positive_or_one(
                        number_under(body, json::text("avg_amount"), customer, json::one()),
                    ),
                    tx_count_24h: number_under(
                        body,
                        json::text("tx_count_24h"),
                        customer,
                        json::zero(),
                    ),
                    known_merchants: list_under(body, json::text("known_merchants"), customer),
                    merchant_id: text_under(
                        body,
                        json::text("id"),
                        merchant,
                        MERCHANT_BYTES as int,
                    ),
                    mcc: text_under(body, json::text("mcc"), merchant, MCC_BYTES as int),
                    merchant_avg_amount: number_under(
                        body,
                        json::text("avg_amount"),
                        merchant,
                        json::zero(),
                    ),
                    is_online: bool_under(body, json::text("is_online"), terminal, false),
                    card_present: bool_under(body, json::text("card_present"), terminal, true),
                    km_from_home: number_under(
                        body,
                        json::text("km_from_home"),
                        terminal,
                        json::zero(),
                    ),
                    has_last_tx: last is Some,
                    last_timestamp: match last {
                        Some(p) => text_under(
                            body,
                            json::text("timestamp"),
                            p,
                            TIME_BYTES as int,
                        ),
                        None => Seq::empty(),
                    },
                    km_from_last: match last {
                        Some(p) => number_under(
                            body,
                            json::text("km_from_current"),
                            p,
                            json::zero(),
                        ),
                        None => json::zero(),
                    },
                },
            )
        },
        _ => None,
    }
}

fn read_number(body: &[u8], key: &[u8], from: usize, otherwise: Decimal) -> (r: Decimal)
    ensures
        r@ == number_under(body@, key@, from as int, otherwise@),
{
    match find_key(body, key, from) {
        Some(p) => {
            let (value, _end): (Decimal, usize) = parse_json_float(body, p);
            value
        },
        None => otherwise,
    }
}

fn any_value(digits: &Vec<u8>) -> (r: bool)
    ensures
        r == has_value(digits@),
{
    let mut i: usize = 0;
    while i < digits.len()
        invariant
            i <= digits@.len(),
            forall|j: int| 0 <= j < i ==> #[trigger] digits@[j] == '0' as u8,
        decreases digits@.len() - i,
    {
        if digits[i] != '0' as u8 {
            return true;
        }
        i = i + 1;
    }
    false
}

fn or_one(d: Decimal) -> (r: Decimal)
    ensures
        r@ == positive_or_one(d@),
{
    if !d.negative && (any_value(&d.whole) || any_value(&d.fraction)) {
        d
    } else {
        Decimal::one()
    }
}

fn clip(s: &[u8], max: usize) -> (r: Vec<u8>)
    ensures
        r@ == clipped(s@, max as int),
{
    let n: usize = if s.len() > max { max } else { s.len() };
    let r: Vec<u8> = copied(s, 0, n);
    assert(r@ =~= clipped(s@, max as int));
    r
}

fn read_text(body: &[u8], key: &[u8], from: usize, max: usize) -> (r: Vec<u8>)
    ensures
        r@ == text_under(body@, key@, from as int, max as int),
{
    match find_key(body, key, from) {
        Some(p) => {
            let (s, _end): (&[u8], usize) = parse_json_string(body, p);
            clip(s, max)
        },
        None => Vec::new(),
    }
}

fn read_bool(body: &[u8], key: &[u8], from: usize, otherwise: bool) -> (r: bool)
    ensures
        r == bool_under(body@, key@, from as int, otherwise),
{
    match find_key(body, key, from) {
        Some(p) => {
            let (value, _end): (bool, usize) = parse_json_bool(body, p);
            value
        },
        None => otherwise,
    }
}

fn skip_separators(body: &[u8], pos: usize) -> (r: usize)
    requires
        pos <= body@.len(),
    ensures
        r == pos + lex::leading(body@.skip(pos as int), |b: u8| is_separator(b)),
        pos <= r <= body@.len(),
{
    let ghost s = body@.skip(pos as int);
    let mut i: usize = pos;
    while i < body.len() && (lex::is_white(body[i]) || body[i] == ',' as u8)
        invariant
            pos <= i <= body@.len(),
            s == body@.skip(pos as int),
            forall|j: int| 0 <= j < i - pos ==> is_separator(#[trigger] s[j]),
        decreases body@.len() - i,
    {
        assert(s[i - pos] == body@[i as int]);
        i = i + 1;
    }
    proof {
        lex::lemma_leading_is(s, |b: u8| is_separator(b), i - pos);
    }
    i
}

fn read_list(body: &[u8], key: &[u8], from: usize) -> (r: Vec<Vec<u8>>)
    ensures
        texts(r@) == list_under(body@, key@, from as int),
{
    let mut list: Vec<Vec<u8>> = Vec::new();
    assert(texts(list@) =~= Seq::<Seq<u8>>::empty());
    let p: usize = match find_key(body, key, from) {
        Some(p) => p,
        None => {
            return list;
        },
    };
    if p >= body.len() || body[p] != '[' as u8 {
        return list;
    }
    let ghost want = list_from(body@, p + 1, KNOWN_MERCHANTS as nat);
    let mut i: usize = p + 1;
    assert(texts(list@) + want =~= want);
    while list.len() < KNOWN_MERCHANTS
        invariant
            i <= body@.len(),
            list@.len() <= KNOWN_MERCHANTS,
            list_under(body@, key@, from as int) == want,
            texts(list@) + list_from(body@, i as int, (KNOWN_MERCHANTS - list@.len()) as nat)
                == want,
        decreases KNOWN_MERCHANTS - list@.len(),
    {
        let j: usize = skip_separators(body, i);
        if j >= body.len() || body[j] == ']' as u8 {
            assert(texts(list@) + Seq::<Seq<u8>>::empty() =~= texts(list@));
            return list;
        }
        let (s, end): (&[u8], usize) = parse_json_string(body, j);
        let ghost before = texts(list@);
        let item: Vec<u8> = clip(s, MERCHANT_BYTES);
        let ghost kept = item@;
        let ghost n = (KNOWN_MERCHANTS - list@.len() - 1) as nat;
        list.push(item);
        assert(texts(list@) =~= before.push(kept));
        assert(before + (seq![kept] + list_from(body@, end as int, n)) =~= texts(list@)
            + list_from(body@, end as int, n));
        i = end;
    }
    assert(texts(list@) + Seq::<Seq<u8>>::empty() =~= texts(list@));
    list
}

/// Reads the transaction of a request.
pub fn parse_transaction(body: &[u8]) -> (r: Option<Transaction>)
    ensures
        match r {
            Some(tx) => transaction(body@) == Some(tx@),
            None => transaction(body@) is None,
        },
{
    let tx: usize = match find_section(body, "transaction".as_bytes()) {
        Some(p) => p,
        None => {
            return None;
        },
    };
    let customer: usize = match find_section(body, "customer".as_bytes()) {
        Some(p) => p,
        None => {
            return None;
        },
    };
    let merchant: usize = match find_section(body, "merchant".as_bytes()) {
        Some(p) => p,
        None => {
            return None;
        },
    };
    let terminal: usize = match find_section(body, "terminal".as_bytes()) {
        Some(p) => p,
        None => {
            return None;
        },
    };
    let last: Option<usize> = match find_key(body, "last_transaction".as_bytes(), 0) {
        Some(p) => if is_json_null(body, p) {
            None
        } else {
            Some(p)
        },
        None => None,
    };
    let (last_timestamp, km_from_last): (Vec<u8>, Decimal) = match last {
        Some(p) => (
            read_text(body, "timestamp".as_bytes(), p, TIME_BYTES),
            read_number(body, "km_from_current".as_bytes(), p, Decimal::zero()),
        ),
        None => (Vec::new(), Decimal::zero()),
    };
    Some(
        Transaction {
            amount: read_number(body, "amount".as_bytes(), tx, Decimal::zero()),
            installments: read_number(body, "installments".as_bytes(), tx, Decimal::one()),
            requested_at: read_text(body, "requested_at".as_bytes(), tx, TIME_BYTES),
            avg_amount: or_one(
                read_number(body, "avg_amount".as_bytes(), customer, Decimal::one()),
            ),
            tx_count_24h: read_number(body, "tx_count_24h".as_bytes(), customer, Decimal::zero()),
            known_merchants: read_list(body, "known_merchants".as_bytes(), customer),
            merchant_id: read_text(body, "id".as_bytes(), merchant, MERCHANT_BYTES),
            mcc: read_text(body, "mcc".as_bytes(), merchant, MCC_BYTES),
            merchant_avg_amount: read_number(
                body,
                "avg_amount".as_bytes(),
                merchant,
                Decimal::zero(),
            ),
            is_online: read_bool(body, "is_online".as_bytes(), terminal, false),
            card_present: read_bool(body, "card_present".as_bytes(), terminal, true),
            km_from_home: read_number(body, "km_from_home".as_bytes(), terminal, Decimal::zero()),
            has_last_tx: last.is_some(),
            last_timestamp,
            km_from_last,
        },
    )
}

proof fn lemma_list_bounded(body: Seq<u8>, i: int, n: nat)
    ensures
        list_from(body, i, n).len() <= n,
        forall|j: int|
            0 <= j < list_from(body, i, n).len() ==> (#[trigger] list_from(body, i, n)[j]).len()
                <= MERCHANT_BYTES,
    decreases n,
{
    let j = i + lex::leading(body.skip(i), |b: u8| is_separator(b));
    if n == 0 || j >= body.len() || body[j] == ']' as u8 {
    } else {
        let (s, end) = json::string_at(body, j);
        let rest = list_from(body, end, (n - 1) as nat);
        lemma_list_bounded(body, end, (n - 1) as nat);
        assert forall|k: int|
            0 <= k < list_from(body, i, n).len() implies (#[trigger] list_from(
            body,
            i,
            n,
        )[k]).len() <= MERCHANT_BYTES by {
            if k > 0 {
                assert(list_from(body, i, n)[k] == rest[k - 1]);
            }
        }
    }
}

/// Whatever a request says, its transaction stays within bounds: each text is as short as it
/// is kept, and the customer's average can be divided by.
pub proof fn law_transaction_is_bounded(body: Seq<u8>)
    ensures
        transaction(body) matches Some(t) ==> {
            &&& t.requested_at.len() <= TIME_BYTES
            &&& t.last_timestamp.len() <= TIME_BYTES
            &&& t.merchant_id.len() <= MERCHANT_BYTES
            &&& t.mcc.len() <= MCC_BYTES
            &&& t.known_merchants.len() <= KNOWN_MERCHANTS
            &&& forall|i: int|
                0 <= i < t.known_merchants.len() ==> (#[trigger] t.known_merchants[i]).len()
                    <= MERCHANT_BYTES
            &&& is_positive(t.avg_amount)
        },
{
    assert(is_positive(json::one())) by {
        assert(json::one().whole[0] != '0' as u8);
    }
    match section(body, "customer") {
        Some(customer) => {
            match json::find(body, json::text("known_merchants"), customer) {
                Some(p) => lemma_list_bounded(body, p + 1, KNOWN_MERCHANTS as nat),
                None => {},
            }
        },
        None => {},
    }
}

} // verus!
