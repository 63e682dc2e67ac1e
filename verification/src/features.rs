//! What a transaction looks like to the search.
use crate::bytes::matches_at;
use crate::calendar;
use crate::calendar::{minutes_between, parse_datetime};
use crate::index;
use crate::index::{QVec, FIXED_SCALE};
use crate::json;
use crate::transaction;
use crate::transaction::{Transaction, TransactionText};
use vstd::prelude::*;

verus! {

/// The bytes that a date with an hour has at least.
pub const HOUR_BYTES: usize = 13;

/// The bytes that a date with an hour and a minute has at least.
pub const MINUTE_BYTES: usize = 16;

/// The features of a transaction that need no arithmetic on its amounts and distances.
#[derive(Clone, Copy)]
pub struct Features {
    pub hour: u32,
    /// The day of the week: 0 is Monday.
    pub day: u32,
    /// The minutes since the previous transaction, if there was one.
    pub minutes_since_last: Option<i64>,
    pub is_online: bool,
    pub card_present: bool,
    pub unknown_merchant: bool,
    /// The risk of the merchant category, in ten thousandths.
    pub mcc_risk: i16,
}

/// The other features, scaled to the unit interval and quantized.
#[derive(Clone, Copy)]
pub struct Scaled {
    pub amount: i16,
    pub installments: i16,
    pub amount_ratio: i16,
    pub hour: i16,
    pub day: i16,
    pub minutes_since_last: i16,
    pub km_from_last: i16,
    pub km_from_home: i16,
    pub tx_count_24h: i16,
    pub merchant_avg_amount: i16,
}

/// The hour and the day of the week of a transaction; noon of a Wednesday where it
/// names no time.
pub open spec fn time_of(t: TransactionText) -> Option<(int, int)> {
    if t.requested_at.len() >= HOUR_BYTES {
        calendar::hour_and_day(t.requested_at)
    } else {
        Some((12, 2))
    }
}

/// The minutes since the previous transaction: none where it or its time is not known.
pub open spec fn pause_of(t: TransactionText) -> Option<Option<int>> {
    if t.has_last_tx && t.requested_at.len() >= MINUTE_BYTES && t.last_timestamp.len()
        >= MINUTE_BYTES {
        match calendar::minutes_from(t.last_timestamp, t.requested_at) {
            Some(m) => Some(Some(m)),
            None => None,
        }
    } else {
        Some(None)
    }
}

/// The risk of a merchant category, in ten thousandths.
pub open spec fn risk_of(mcc: Seq<u8>) -> int {
    if mcc == json::text("5411") {
        1_500
    } else if mcc == json::text("5812") {
        3_000
    } else if mcc == json::text("5912") {
        2_000
    } else if mcc == json::text("5944") {
        4_500
    } else if mcc == json::text("7801") {
        8_000
    } else if mcc == json::text("7802") {
        7_500
    } else if mcc == json::text("7995") {
        8_500
    } else if mcc == json::text("4511") {
        3_500
    } else if mcc == json::text("5311") {
        2_500
    } else {
        5_000
    }
}

fn is_text(s: &[u8], t: &[u8]) -> (r: bool)
    ensures
        r == (s@ == t@),
{
    let r: bool = s.len() == t.len() && matches_at(s, 0, t);
    proof {
        if s@.len() == t@.len() {
            assert(s@.subrange(0, t@.len() as int) =~= s@);
        }
    }
    r
}

/// The risk of a merchant category, in ten thousandths.
pub fn mcc_risk(mcc: &[u8]) -> (r: i16)
    ensures
        r == risk_of(mcc@),
        0 <= r <= FIXED_SCALE,
{
    if is_text(mcc, "5411".as_bytes()) {
        1_500
    } else if is_text(mcc, "5812".as_bytes()) {
        3_000
    } else if is_text(mcc, "5912".as_bytes()) {
        2_000
    } else if is_text(mcc, "5944".as_bytes()) {
        4_500
    } else if is_text(mcc, "7801".as_bytes()) {
        8_000
    } else if is_text(mcc, "7802".as_bytes()) {
        7_500
    } else if is_text(mcc, "7995".as_bytes()) {
        8_500
    } else if is_text(mcc, "4511".as_bytes()) {
        3_500
    } else if is_text(mcc, "5311".as_bytes()) {
        2_500
    } else {
        5_000
    }
}

/// Whether the merchant is none of the known ones.
pub fn is_unknown_merchant(tx: &Transaction) -> (r: bool)
    ensures
        r == !tx@.known_merchants.contains(tx@.merchant_id),
{
    let ghost known = tx@.known_merchants;
    let mut i: usize = 0;
    while i < tx.known_merchants.len()
        invariant
            i <= tx.known_merchants@.len(),
            known == transaction::texts(tx.known_merchants@),
            known == tx@.known_merchants,
            forall|j: int| 0 <= j < i ==> #[trigger] known[j] != tx.merchant_id@,
        decreases tx.known_merchants@.len() - i,
    {
        let name: &Vec<u8> = &tx.known_merchants[i];
        assert(known[i as int] == name@);
        if is_text(name.as_slice(), tx.merchant_id.as_slice()) {
            return false;
        }
        i = i + 1;
    }
    true
}

/// The value of a feature that is there or not.
pub open spec fn flag(set: bool) -> int {
    if set {
        FIXED_SCALE as int
    } else {
        0
    }
}

/// `q` is the query vector of the features: each stands in its dimension, and the two about
/// the previous transaction mark that there was none.
pub open spec fn is_query_of(q: QVec, f: Features, s: Scaled) -> bool {
    let known = f.minutes_since_last is Some;
    &&& q.at(0) == s.amount
    &&& q.at(1) == s.installments
    &&& q.at(2) == s.amount_ratio
    &&& q.at(3) == s.hour
    &&& q.at(4) == s.day
    &&& q.at(5) == if known {
        s.minutes_since_last as int
    } else {
        -FIXED_SCALE
    }
    &&& q.at(6) == if known {
        s.km_from_last as int
    } else {
        -FIXED_SCALE
    }
    &&& q.at(7) == s.km_from_home
    &&& q.at(8) == s.tx_count_24h
    &&& q.at(9) == flag(f.is_online)
    &&& q.at(10) == flag(f.card_present)
    &&& q.at(11) == flag(f.unknown_merchant)
    &&& q.at(12) == f.mcc_risk
    &&& q.at(13) == s.merchant_avg_amount
    &&& q.at(14) == 0
    &&& q.at(15) == 0
}

/// A quantized share of the unit interval.
pub open spec fn is_share(v: i16) -> bool {
    0 <= v <= FIXED_SCALE
}

impl Scaled {
    /// Every scaled feature lies in the unit interval.
    pub open spec fn in_unit(self) -> bool {
        &&& is_share(self.amount)
        &&& is_share(self.installments)
        &&& is_share(self.amount_ratio)
        &&& is_share(self.hour)
        &&& is_share(self.day)
        &&& is_share(self.minutes_since_last)
        &&& is_share(self.km_from_last)
        &&& is_share(self.km_from_home)
        &&& is_share(self.tx_count_24h)
        &&& is_share(self.merchant_avg_amount)
    }
}

/// A query of features in the unit interval lies in the domain of the search.
pub proof fn law_query_is_in_domain(q: QVec, f: Features, s: Scaled)
    requires
        is_query_of(q, f, s),
        s.in_unit(),
        is_share(f.mcc_risk),
    ensures
        q.in_domain(),
{
    assert forall|d: int| 0 <= d < 14 implies index::coordinate_in_domain(
        d,
        #[trigger] q.at(d),
    ) by {}
}

/// The partition of a query is given by whether it was online, with the card present, at an
/// unknown merchant and after another transaction, by the quarter of the risk and by the
/// quarter of the day.
pub proof fn law_query_partition(q: QVec, f: Features, s: Scaled)
    requires
        is_query_of(q, f, s),
        s.minutes_since_last >= 0,
    ensures
        index::key_of(q) == index::bit(f.is_online, 1) + index::bit(f.card_present, 2) + index::bit(
            f.unknown_merchant,
            4,
        ) + index::bit(f.minutes_since_last is Some, 8) + 16 * index::quarter(f.mcc_risk as int)
            + 64 * index::quarter(s.hour as int),
{
}

/// `f` are the features of a transaction.
pub open spec fn are_features_of(f: Features, tx: Transaction) -> bool {
    &&& time_of(tx@) == Some((f.hour as int, f.day as int))
    &&& pause_of(tx@) == Some(
        match f.minutes_since_last {
            Some(m) => Some(m as int),
            None => None,
        },
    )
    &&& f.is_online == tx.is_online
    &&& f.card_present == tx.card_present
    &&& f.unknown_merchant == !tx@.known_merchants.contains(tx@.merchant_id)
    &&& f.mcc_risk == risk_of(tx@.mcc)
    &&& f.hour <= 23
    &&& f.day <= 6
}

impl Features {
    /// The features of a transaction. A time that is none has none.
    pub fn of(tx: &Transaction) -> (r: Option<Features>)
        ensures
            match r {
                Some(f) => are_features_of(f, *tx),
                None => time_of(tx@) is None || pause_of(tx@) is None,
            },
    {
        let (hour, day): (u32, u32) = if tx.requested_at.len() >= HOUR_BYTES {
            match parse_datetime(tx.requested_at.as_slice()) {
                Some(time) => time,
                None => {
                    return None;
                },
            }
        } else {
            (12, 2)
        };
        let minutes_since_last: Option<i64> = if tx.has_last_tx && tx.requested_at.len()
            >= MINUTE_BYTES && tx.last_timestamp.len() >= MINUTE_BYTES {
            match minutes_between(tx.requested_at.as_slice(), tx.last_timestamp.as_slice()) {
                Some(m) => Some(m),
                None => {
                    return None;
                },
            }
        } else {
            None
        };
        Some(
            Features {
                hour,
                day,
                minutes_since_last,
                is_online: tx.is_online,
                card_present: tx.card_present,
                unknown_merchant: is_unknown_merchant(tx),
                mcc_risk: mcc_risk(tx.mcc.as_slice()),
            },
        )
    }

    /// The query vector.
    pub fn query(&self, s: &Scaled) -> (q: QVec)
        ensures
            is_query_of(q, *self, *s),
    {
        let (minutes, km): (i16, i16) = match self.minutes_since_last {
            Some(_) => (s.minutes_since_last, s.km_from_last),
            None => (-10_000, -10_000),
        };
        let online: i16 = if self.is_online { 10_000 } else { 0 };
        let card: i16 = if self.card_present { 10_000 } else { 0 };
        let unknown: i16 = if self.unknown_merchant { 10_000 } else { 0 };
        QVec(
            [
                s.amount,
                s.installments,
                s.amount_ratio,
                s.hour,
                s.day,
                minutes,
                km,
                s.km_from_home,
                s.tx_count_24h,
                online,
                card,
                unknown,
                self.mcc_risk,
                s.merchant_avg_amount,
                0,
                0,
            ],
        )
    }
}

} // verus!
