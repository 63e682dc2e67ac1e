//! What the features of a transaction are, and where they stand in its query vector.
use crate::exact;
use crate::features;
use crate::features::{Features, Scaled};
use crate::index;
use crate::index::QVec;
use crate::json;
use crate::text;
use crate::timestamps;
use crate::transaction::{Transaction, TransactionText};
use vstd::prelude::*;

verus! {

/// The risk of the merchant category with this number, in ten thousandths.
pub open spec fn listed_risk(code: int) -> int {
    if code == 5411 {
        1_500
    } else if code == 5812 {
        3_000
    } else if code == 5912 {
        2_000
    } else if code == 5944 {
        4_500
    } else if code == 7801 {
        8_000
    } else if code == 7802 {
        7_500
    } else if code == 7995 {
        8_500
    } else if code == 4511 {
        3_500
    } else if code == 5311 {
        2_500
    } else {
        5_000
    }
}

/// Four figures are the numeral of what they are worth.
proof fn lemma_four_figures(s: Seq<u8>)
    requires
        s.len() == 4,
        text::are_figures(s),
    ensures
        text::worth(s) == (s[0] - 0x30) * 1_000 + (s[1] - 0x30) * 100 + (s[2] - 0x30) * 10 + (s[3]
            - 0x30),
        forall|i: int| 0 <= i < 4 ==> 0x30 <= #[trigger] s[i] <= 0x39,
{
    reveal_with_fuel(text::worth, 5);
    reveal_with_fuel(text::ten_to, 5);
    assert forall|i: int| 0 <= i < 4 implies 0x30 <= #[trigger] s[i] <= 0x39 by {
        assert(text::is_figure(s[i]));
    }
    let a = s.skip(1);
    let b = a.skip(1);
    let c = b.skip(1);
    assert(a[0] == s[1] && b[0] == s[2] && c[0] == s[3]);
    assert(c.skip(1).len() == 0);
    assert(text::worth(c) == c[0] - 0x30);
    assert(text::worth(b) == (b[0] - 0x30) * 10 + text::worth(c));
    assert(text::worth(a) == (a[0] - 0x30) * 100 + text::worth(b));
}

proof fn lemma_code(mcc: Seq<u8>, name: &str, a: u8, b: u8, c: u8, d: u8)
    requires
        json::text(name) == seq![a, b, c, d],
        0x30 <= a <= 0x39 && 0x30 <= b <= 0x39 && 0x30 <= c <= 0x39 && 0x30 <= d <= 0x39,
    ensures
        mcc == json::text(name) <==> mcc.len() == 4 && text::are_figures(mcc) && text::worth(mcc)
            == (a - 0x30) * 1_000 + (b - 0x30) * 100 + (c - 0x30) * 10 + (d - 0x30),
{
    let s = seq![a, b, c, d];
    assert forall|i: int| 0 <= i < 4 implies text::is_figure(#[trigger] s[i]) by {}
    lemma_four_figures(s);
    if mcc.len() == 4 && text::are_figures(mcc) {
        lemma_four_figures(mcc);
        if text::worth(mcc) == text::worth(s) {
            assert(mcc[0] == a && mcc[1] == b && mcc[2] == c && mcc[3] == d);
            assert(mcc =~= s);
        }
    }
}

pub proof fn lemma_risk(mcc: Seq<u8>)
    ensures
        features::risk_of(mcc) == if mcc.len() == 4 && text::are_figures(mcc) {
            listed_risk(text::worth(mcc))
        } else {
            5_000
        },
{
    reveal_strlit("5411");
    reveal_strlit("5812");
    reveal_strlit("5912");
    reveal_strlit("5944");
    reveal_strlit("7801");
    reveal_strlit("7802");
    reveal_strlit("7995");
    reveal_strlit("4511");
    reveal_strlit("5311");
    vstd::string::is_ascii_spec_bytes("5411");
    vstd::string::is_ascii_spec_bytes("5812");
    vstd::string::is_ascii_spec_bytes("5912");
    vstd::string::is_ascii_spec_bytes("5944");
    vstd::string::is_ascii_spec_bytes("7801");
    vstd::string::is_ascii_spec_bytes("7802");
    vstd::string::is_ascii_spec_bytes("7995");
    vstd::string::is_ascii_spec_bytes("4511");
    vstd::string::is_ascii_spec_bytes("5311");
    assert(json::text("5411") =~= seq![0x35u8, 0x34, 0x31, 0x31]);
    lemma_code(mcc, "5411", 0x35, 0x34, 0x31, 0x31);
    assert(json::text("5812") =~= seq![0x35u8, 0x38, 0x31, 0x32]);
    lemma_code(mcc, "5812", 0x35, 0x38, 0x31, 0x32);
    assert(json::text("5912") =~= seq![0x35u8, 0x39, 0x31, 0x32]);
    lemma_code(mcc, "5912", 0x35, 0x39, 0x31, 0x32);
    assert(json::text("5944") =~= seq![0x35u8, 0x39, 0x34, 0x34]);
    lemma_code(mcc, "5944", 0x35, 0x39, 0x34, 0x34);
    assert(json::text("7801") =~= seq![0x37u8, 0x38, 0x30, 0x31]);
    lemma_code(mcc, "7801", 0x37, 0x38, 0x30, 0x31);
    assert(json::text("7802") =~= seq![0x37u8, 0x38, 0x30, 0x32]);
    lemma_code(mcc, "7802", 0x37, 0x38, 0x30, 0x32);
    assert(json::text("7995") =~= seq![0x37u8, 0x39, 0x39, 0x35]);
    lemma_code(mcc, "7995", 0x37, 0x39, 0x39, 0x35);
    assert(json::text("4511") =~= seq![0x34u8, 0x35, 0x31, 0x31]);
    lemma_code(mcc, "4511", 0x34, 0x35, 0x31, 0x31);
    assert(json::text("5311") =~= seq![0x35u8, 0x33, 0x31, 0x31]);
    lemma_code(mcc, "5311", 0x35, 0x33, 0x31, 0x31);
}

/// A merchant category has the risk that is listed for its number; every other one, and what
/// is no number of four figures, has the middle risk.
pub proof fn law_risk_is_that_of_the_category(mcc: &[u8], r: i16)
    requires
        call_ensures(features::mcc_risk, (mcc,), r),
    ensures
        r == if mcc@.len() == 4 && text::are_figures(mcc@) {
            listed_risk(text::worth(mcc@))
        } else {
            5_000
        },
{
    lemma_risk(mcc@);
}

/// The merchant is one of the known ones.
pub open spec fn is_known(tx: Transaction) -> bool {
    exists|i: int|
        0 <= i < tx.known_merchants@.len() && (#[trigger] tx.known_merchants@[i])@
            == tx.merchant_id@
}

proof fn lemma_known(tx: Transaction)
    ensures
        tx@.known_merchants.contains(tx@.merchant_id) <==> is_known(tx),
{
    let names = tx@.known_merchants;
    assert forall|i: int| 0 <= i < names.len() implies #[trigger] names[i]
        == tx.known_merchants@[i]@ by {}
    if names.contains(tx@.merchant_id) {
        let i = choose|i: int| 0 <= i < names.len() && names[i] == tx@.merchant_id;
        assert(tx.known_merchants@[i]@ == tx.merchant_id@);
    }
    if is_known(tx) {
        let i = choose|i: int|
            0 <= i < tx.known_merchants@.len() && (#[trigger] tx.known_merchants@[i])@
                == tx.merchant_id@;
        assert(names[i] == tx@.merchant_id);
    }
}

/// A merchant is unknown if it is none of the known ones.
pub proof fn law_unknown_merchant_is_not_listed(tx: Transaction, r: bool)
    requires
        call_ensures(features::is_unknown_merchant, (&tx,), r),
    ensures
        r <==> !is_known(tx),
{
    lemma_known(tx);
}

/// The previous transaction and the times of both are known to the minute.
pub open spec fn has_pause(t: TransactionText) -> bool {
    t.has_last_tx && t.requested_at.len() >= 16 && t.last_timestamp.len() >= 16
}

/// The times of a transaction are times, as far as they are written.
pub open spec fn times_are_times(t: TransactionText) -> bool {
    &&& t.requested_at.len() >= 13 ==> timestamps::names_hour(t.requested_at)
    &&& has_pause(t) ==> timestamps::names_minute(t.requested_at) && timestamps::names_minute(
        t.last_timestamp,
    )
}

pub proof fn lemma_times(t: TransactionText)
    ensures
        (features::time_of(t) is Some && features::pause_of(t) is Some) <==> times_are_times(t),
{
    if t.requested_at.len() >= 13 {
        timestamps::lemma_hour_and_day(t.requested_at);
    }
    if has_pause(t) {
        timestamps::lemma_epoch_minutes(t.requested_at);
        timestamps::lemma_epoch_minutes(t.last_timestamp);
    }
}

/// `f` says of a transaction when it was, how long after the previous one, and what kind it is.
pub open spec fn describes(f: Features, tx: Transaction) -> bool {
    let t = tx@;
    &&& if t.requested_at.len() >= 13 {
        &&& f.hour == timestamps::field(t.requested_at, 11, 13)
        &&& f.day == timestamps::weekday_of(timestamps::day_named(t.requested_at))
    } else {
        f.hour == 12 && f.day == 2
    }
    &&& f.minutes_since_last is Some <==> has_pause(t)
    &&& f.minutes_since_last matches Some(m) ==> timestamps::minute_named(t.last_timestamp) + m
        == timestamps::minute_named(t.requested_at)
    &&& f.is_online <==> tx.is_online
    &&& f.card_present <==> tx.card_present
    &&& f.unknown_merchant <==> !is_known(tx)
    &&& f.mcc_risk == if tx.mcc@.len() == 4 && text::are_figures(tx.mcc@) {
        listed_risk(text::worth(tx.mcc@))
    } else {
        5_000
    }
}

pub proof fn lemma_describes(f: Features, tx: Transaction)
    requires
        features::are_features_of(f, tx),
    ensures
        describes(f, tx),
{
    let t = tx@;
    lemma_times(t);
    lemma_known(tx);
    lemma_risk(tx.mcc@);
    if t.requested_at.len() >= 13 {
        timestamps::lemma_hour_and_day(t.requested_at);
    }
    if has_pause(t) {
        timestamps::lemma_epoch_minutes(t.requested_at);
        timestamps::lemma_epoch_minutes(t.last_timestamp);
    }
}

/// The features are those of the transaction: there are some exactly where its times are
/// times, and each says what the transaction says.
pub proof fn law_features_describe_the_transaction(tx: Transaction, r: Option<Features>)
    requires
        call_ensures(Features::of, (&tx,), r),
    ensures
        r is Some <==> times_are_times(tx@),
        r matches Some(f) ==> describes(f, tx),
{
    lemma_times(tx@);
    if r is Some {
        lemma_describes(r->0, tx);
    }
}

/// A yes is one whole, a no is nothing.
pub open spec fn whole_or_nothing(set: bool) -> int {
    if set {
        10_000
    } else {
        0
    }
}

/// The query vector has every feature in its dimension: what is counted or measured as it was
/// scaled, yes and no as one and zero, and below zero where there was no previous transaction.
pub proof fn law_query_has_each_feature_in_its_dimension(f: Features, s: Scaled, q: QVec)
    requires
        call_ensures(Features::query, (&f, &s), q),
    ensures
        q.at(0) == s.amount && q.at(1) == s.installments && q.at(2) == s.amount_ratio,
        q.at(3) == s.hour && q.at(4) == s.day,
        f.minutes_since_last is Some ==> q.at(5) == s.minutes_since_last && q.at(6)
            == s.km_from_last,
        f.minutes_since_last is None ==> q.at(5) == -10_000 && q.at(6) == -10_000,
        q.at(7) == s.km_from_home && q.at(8) == s.tx_count_24h,
        q.at(9) == whole_or_nothing(f.is_online),
        q.at(10) == whole_or_nothing(f.card_present),
        q.at(11) == whole_or_nothing(f.unknown_merchant),
        q.at(12) == f.mcc_risk && q.at(13) == s.merchant_avg_amount,
        q.at(14) == 0 && q.at(15) == 0,
{
}

proof fn lemma_apart_in_one(a: QVec, b: QVec, k: int, n: nat)
    requires
        0 <= k < 16,
        n <= 16,
        forall|d: int| 0 <= d < 16 && d != k ==> #[trigger] a.at(d) == b.at(d),
    ensures
        exact::squared_distance_to(a, b, n) == if k < n {
            (a.at(k) - b.at(k)) * (a.at(k) - b.at(k))
        } else {
            0
        },
    decreases n,
{
    if n > 0 {
        lemma_apart_in_one(a, b, k, (n - 1) as nat);
        if n - 1 != k {
            assert(a.at(n - 1) == b.at(n - 1));
        }
    }
}

/// Queries that differ in one yes or no are a whole apart: their squared distance is that of
/// one in the fixed-point scale.
pub proof fn law_one_yes_or_no_is_a_whole_apart(
    f: Features,
    g: Features,
    s: Scaled,
    q: QVec,
    p: QVec,
)
    requires
        call_ensures(Features::query, (&f, &s), q),
        call_ensures(Features::query, (&g, &s), p),
        g == (Features { is_online: !f.is_online, ..f }) || g == (Features {
            card_present: !f.card_present,
            ..f
        }) || g == (Features { unknown_merchant: !f.unknown_merchant, ..f }),
    ensures
        exact::squared_distance(q, p) == 100_000_000,
{
    let k: int = if g.is_online != f.is_online {
        9
    } else if g.card_present != f.card_present {
        10
    } else {
        11
    };
    assert forall|d: int| 0 <= d < 16 && d != k implies #[trigger] q.at(d) == p.at(d) by {}
    lemma_apart_in_one(q, p, k, 16);
    let x = q.at(k) - p.at(k);
    assert(x * x == 100_000_000) by (nonlinear_arith)
        requires
            x == 10_000 || x == -10_000,
    ;
}

/// `q` is the quarter of the unit interval that `v` lies in; what lies outside of the interval
/// belongs to the nearest quarter.
pub open spec fn in_quarter(v: int, q: int) -> bool {
    &&& 0 <= q <= 3
    &&& q > 0 ==> 2_500 * q <= v
    &&& q < 3 ==> v < 2_500 * (q + 1)
}

/// A coordinate is put in its quarter.
pub proof fn law_quarters_are_equal(v: i16, r: u8)
    requires
        call_ensures(index::bin4, (v,), r),
    ensures
        in_quarter(v as int, r as int),
{
}

/// `key` has a bit for each of online, card present, unknown merchant and previous transaction,
/// and two bits each for the quarter of the risk and that of the hour.
pub open spec fn is_key_of(key: int, v: QVec) -> bool {
    &&& key % 2 == 1 <==> v.at(9) != 0
    &&& (key / 2) % 2 == 1 <==> v.at(10) != 0
    &&& (key / 4) % 2 == 1 <==> v.at(11) != 0
    &&& (key / 8) % 2 == 1 <==> v.at(5) != -10_000
    &&& in_quarter(v.at(12), (key / 16) % 4)
    &&& in_quarter(v.at(3), key / 64)
}

pub proof fn lemma_is_key(v: QVec)
    ensures
        is_key_of(index::key_of(v), v),
{
}

/// A partition key has its bits.
pub proof fn law_partition_key_has_its_bits(v: QVec, r: u8)
    requires
        call_ensures(index::partition_key, (&v,), r),
    ensures
        is_key_of(r as int, v),
{
}

} // verus!
