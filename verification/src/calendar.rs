//! Dates and times as requests write them: `YYYY-MM-DDTHH:MM:SSZ`.
use crate::lex;
use crate::lex::is_ascii_digit;
use vstd::prelude::*;

verus! {

/// All bytes are digits.
pub open spec fn all_digits(s: Seq<u8>) -> bool {
    forall|i: int| 0 <= i < s.len() ==> lex::is_digit(#[trigger] s[i])
}

/// The number that `s` writes, if it writes one that fits.
pub open spec fn number(s: Seq<u8>) -> Option<int> {
    if all_digits(s) && lex::decimal(s) <= u32::MAX {
        Some(lex::decimal(s))
    } else {
        None
    }
}

proof fn lemma_decimal_grows(s: Seq<u8>, n: int)
    requires
        all_digits(s),
        0 <= n <= s.len(),
    ensures
        0 <= lex::decimal(s.take(n)) <= lex::decimal(s),
    decreases s.len() - n,
{
    if n < s.len() {
        lemma_decimal_grows(s, n + 1);
        assert(s.take(n + 1) =~= s.take(n).push(s[n]));
        lex::lemma_decimal_push(s.take(n), s[n]);
        lex::lemma_decimal_nonneg(s.take(n));
    } else {
        assert(s.take(n) =~= s);
        lex::lemma_decimal_nonneg(s);
    }
}

/// Reads a number that is made of digits only.
pub fn parse_u32(s: &[u8]) -> (r: Option<u32>)
    ensures
        match r {
            Some(v) => number(s@) == Some(v as int),
            None => number(s@) is None,
        },
{
    let mut j: usize = 0;
    while j < s.len()
        invariant
            j <= s@.len(),
            forall|i: int| 0 <= i < j ==> lex::is_digit(#[trigger] s@[i]),
        decreases s@.len() - j,
    {
        if !is_ascii_digit(s[j]) {
            assert(!lex::is_digit(s@[j as int]));
            return None;
        }
        j = j + 1;
    }
    let mut v: u64 = 0;
    let mut i: usize = 0;
    assert(lex::decimal(s@.take(0)) == 0);
    while i < s.len()
        invariant
            i <= s@.len(),
            all_digits(s@),
            v == lex::decimal(s@.take(i as int)),
            v <= u32::MAX,
        decreases s@.len() - i,
    {
        assert(lex::is_digit(s@[i as int]));
        v = v * 10 + (s[i] - '0' as u8) as u64;
        proof {
            assert(s@.take(i + 1) =~= s@.take(i as int).push(s@[i as int]));
            lex::lemma_decimal_push(s@.take(i as int), s@[i as int]);
        }
        if v > u32::MAX as u64 {
            proof {
                lemma_decimal_grows(s@, i + 1);
            }
            return None;
        }
        i = i + 1;
    }
    assert(s@.take(i as int) =~= s@);
    Some(v as u32)
}

/// What each month adds to the day of the week.
pub open spec fn month_shift(m: int) -> int {
    if m == 1 || m == 5 {
        0
    } else if m == 2 || m == 6 {
        3
    } else if m == 3 || m == 11 {
        2
    } else if m == 4 || m == 7 {
        5
    } else if m == 8 {
        1
    } else if m == 9 || m == 12 {
        4
    } else {
        6
    }
}

/// The year that counts for a month: January and February belong to the year before.
pub open spec fn shifted_year(y: int, m: int) -> int {
    if m < 3 {
        y - 1
    } else {
        y
    }
}

/// The leap days of the years up to `z`.
pub open spec fn leap_days(z: int) -> int {
    z / 4 - z / 100 + z / 400
}

/// The sum of Sakamoto's method.
pub open spec fn week_sum(y: int, m: int, d: int) -> int {
    let z = shifted_year(y, m);
    z + leap_days(z) + month_shift(m) + d
}

/// The day of the week, Monday being 0.
pub open spec fn weekday(y: int, m: int, d: int) -> int {
    (week_sum(y, m, d) + 6) % 7
}

/// The day of the week: 0 is Monday, 6 is Sunday.
pub fn day_of_week(y: u32, m: u32, d: u32) -> (r: u32)
    requires
        1 <= m <= 12,
    ensures
        r == weekday(y as int, m as int, d as int),
        r <= 6,
{
    let t: [u32; 12] = [0, 3, 2, 5, 0, 3, 5, 1, 4, 6, 2, 4];
    let z: i128 = if m < 3 { y as i128 - 1 } else { y as i128 };
    let shift: i128 = t[(m - 1) as usize] as i128;
    assert(shift == month_shift(m as int));
    let sum: i128 = z + leaps(z) + shift + d as i128;
    ((sum + 6) % 7) as u32
}

/// The quotient, rounded towards zero.
pub open spec fn quotient(a: int, b: int) -> int {
    if a >= 0 {
        a / b
    } else {
        -((-a) / b)
    }
}

/// The days since 1970-01-01.
pub open spec fn days(y: int, m: int, d: int) -> int {
    let z = if m <= 2 {
        y - 1
    } else {
        y
    };
    let k = if m <= 2 {
        m + 12
    } else {
        m
    };
    365 * z + leap_days(z) + quotient(153 * (k - 3) + 2, 5) + d - 719_469
}

fn leaps(z: i128) -> (r: i128)
    requires
        -0x1_0000_0000_0000_0000 <= z <= 0x1_0000_0000_0000_0000,
    ensures
        r == leap_days(z as int),
        -0x1_0000_0000_0000_0000 <= r <= 0x1_0000_0000_0000_0000,
{
    floored(z, 4) - floored(z, 100) + floored(z, 400)
}

/// The quotient, rounded down.
fn floored(a: i128, b: i128) -> (r: i128)
    requires
        -0x1_0000_0000_0000_0000 <= a <= 0x1_0000_0000_0000_0000,
        1 <= b <= 400,
    ensures
        r == a as int / b as int,
        a >= 0 ==> 0 <= r <= a,
        a < 0 ==> a <= r < 0,
{
    let q: i128 = if a >= 0 { a / b } else { -((b - 1 - a) / b) };
    proof {
        let (x, d) = (a as int, b as int);
        let c = if a >= 0 {
            x
        } else {
            d - 1 - x
        };
        vstd::arithmetic::div_mod::lemma_fundamental_div_mod(c, d);
        assert(d * (c / d) == (c / d) * d) by (nonlinear_arith);
        if a < 0 {
            assert((-(c / d)) * d == -((c / d) * d)) by (nonlinear_arith);
            vstd::arithmetic::div_mod::lemma_fundamental_div_mod_converse(
                x,
                d,
                -(c / d),
                d - 1 - c % d,
            );
        }
        assert(a >= 0 ==> 0 <= x / d <= x) by (nonlinear_arith)
            requires
                d >= 1,
                x == a,
        ;
        assert(a < 0 ==> x <= x / d < 0) by (nonlinear_arith)
            requires
                d >= 1,
                x == a,
        ;
    }
    q
}

fn divided(a: i128, b: i128) -> (r: i128)
    requires
        i128::MIN < a,
        b > 0,
    ensures
        r == quotient(a as int, b as int),
        a >= 0 ==> 0 <= r <= a,
        a < 0 ==> a <= r <= 0,
{
    if a >= 0 {
        let q: i128 = a / b;
        assert(0 <= a / b <= a) by (nonlinear_arith)
            requires
                a >= 0,
                b > 0,
        ;
        q
    } else {
        let c: i128 = -a;
        assert(0 <= c / b <= c) by (nonlinear_arith)
            requires
                c >= 0,
                b > 0,
        ;
        -(c / b)
    }
}

/// The days since 1970-01-01.
pub fn days_since_epoch(y: i64, m: i64, d: i64) -> (r: i64)
    requires
        i64::MIN <= days(y as int, m as int, d as int) <= i64::MAX,
    ensures
        r == days(y as int, m as int, d as int),
{
    let mut z: i128 = y as i128;
    let mut k: i128 = m as i128;
    if m <= 2 {
        z = z - 1;
        k = k + 12;
    }
    let total: i128 = 365 * z + leaps(z) + divided(153 * (k - 3) + 2, 5) + d as i128 - 719_469;
    total as i64
}

/// A leap year of the Gregorian calendar.
pub open spec fn is_leap(y: int) -> bool {
    y % 4 == 0 && (y % 100 != 0 || y % 400 == 0)
}

pub open spec fn days_in_month(y: int, m: int) -> int {
    if m == 2 {
        if is_leap(y) {
            29
        } else {
            28
        }
    } else if m == 4 || m == 6 || m == 9 || m == 11 {
        30
    } else {
        31
    }
}

/// Such a day is in the calendar.
pub open spec fn is_date(y: int, m: int, d: int) -> bool {
    1 <= m <= 12 && 1 <= d <= days_in_month(y, m)
}

fn is_real_date(y: u32, m: u32, d: u32) -> (r: bool)
    ensures
        r == is_date(y as int, m as int, d as int),
{
    if m < 1 || m > 12 {
        return false;
    }
    let leap: bool = y % 4 == 0 && (y % 100 != 0 || y % 400 == 0);
    let last: u32 = if m == 2 {
        if leap {
            29
        } else {
            28
        }
    } else if m == 4 || m == 6 || m == 9 || m == 11 {
        30
    } else {
        31
    };
    1 <= d && d <= last
}

/// The numbers in a point in time: year, month, day, hour and minute, as far as they are
/// asked for.
pub open spec fn part(s: Seq<u8>, from: int, to: int) -> Option<int> {
    number(s.subrange(from, to))
}

/// The hour and the day of the week, if the date and the hour are in the calendar.
pub open spec fn hour_and_day(s: Seq<u8>) -> Option<(int, int)> {
    match (part(s, 0, 4), part(s, 5, 7), part(s, 8, 10), part(s, 11, 13)) {
        (Some(y), Some(m), Some(d), Some(h)) => if is_date(y, m, d) && h <= 23 {
            Some((h, weekday(y, m, d)))
        } else {
            None
        },
        _ => None,
    }
}

fn parse_part(s: &[u8], from: usize, to: usize) -> (r: Option<u32>)
    requires
        from <= to <= s@.len(),
    ensures
        match r {
            Some(v) => part(s@, from as int, to as int) == Some(v as int),
            None => part(s@, from as int, to as int) is None,
        },
{
    parse_u32(&s[from..to])
}

/// The hour and the day of the week of a point in time.
pub fn parse_datetime(s: &[u8]) -> (r: Option<(u32, u32)>)
    requires
        s@.len() >= 13,
    ensures
        match r {
            Some((h, w)) => {
                &&& hour_and_day(s@) == Some((h as int, w as int))
                &&& h <= 23
                &&& w <= 6
            },
            None => hour_and_day(s@) is None,
        },
{
    match (
        parse_part(s, 0, 4),
        parse_part(s, 5, 7),
        parse_part(s, 8, 10),
        parse_part(s, 11, 13),
    ) {
        (Some(y), Some(m), Some(d), Some(h)) => if is_real_date(y, m, d) && h <= 23 {
            Some((h, day_of_week(y, m, d)))
        } else {
            None
        },
        _ => None,
    }
}

/// The minutes since 1970-01-01T00:00, if the date and the time are in the calendar.
pub open spec fn epoch_minutes(s: Seq<u8>) -> Option<int> {
    match (part(s, 0, 4), part(s, 5, 7), part(s, 8, 10), part(s, 11, 13), part(s, 14, 16)) {
        (Some(y), Some(m), Some(d), Some(h), Some(min)) => if is_date(y, m, d) && h <= 23 && min
            <= 59 {
            Some(days(y, m, d) * 1440 + h * 60 + min)
        } else {
            None
        },
        _ => None,
    }
}

/// The minutes since 1970-01-01T00:00.
pub fn parse_epoch_minutes(s: &[u8]) -> (r: Option<i64>)
    requires
        s@.len() >= 16,
    ensures
        match r {
            Some(v) => epoch_minutes(s@) == Some(v as int) && -0x100_0000_0000_0000 <= v
                <= 0x100_0000_0000_0000,
            None => epoch_minutes(s@) is None,
        },
{
    match (
        parse_part(s, 0, 4),
        parse_part(s, 5, 7),
        parse_part(s, 8, 10),
        parse_part(s, 11, 13),
        parse_part(s, 14, 16),
    ) {
        (Some(y), Some(m), Some(d), Some(h), Some(min)) => {
            if !is_real_date(y, m, d) || h > 23 || min > 59 {
                return None;
            }
            proof {
                lemma_days_bounded(y as int, m as int, d as int);
            }
            let count: i64 = days_since_epoch(y as i64, m as i64, d as i64);
            Some(count * 1440 + h as i64 * 60 + min as i64)
        },
        _ => None,
    }
}

/// The minutes from `earlier` to `later`.
pub open spec fn minutes_from(earlier: Seq<u8>, later: Seq<u8>) -> Option<int> {
    match (epoch_minutes(later), epoch_minutes(earlier)) {
        (Some(a), Some(b)) => Some(a - b),
        _ => None,
    }
}

/// The minutes from the previous point in time to the requested one.
pub fn minutes_between(requested_at: &[u8], last_timestamp: &[u8]) -> (r: Option<i64>)
    requires
        requested_at@.len() >= 16,
        last_timestamp@.len() >= 16,
    ensures
        match r {
            Some(v) => minutes_from(last_timestamp@, requested_at@) == Some(v as int),
            None => minutes_from(last_timestamp@, requested_at@) is None,
        },
{
    match (parse_epoch_minutes(requested_at), parse_epoch_minutes(last_timestamp)) {
        (Some(a), Some(b)) => Some(a - b),
        _ => None,
    }
}

proof fn lemma_days_bounded(y: int, m: int, d: int)
    requires
        0 <= y <= u32::MAX,
        1 <= m <= 12,
        0 <= d <= 31,
    ensures
        -0x1000_0000_0000 <= days(y, m, d) <= 0x1000_0000_0000,
{
    let z = shifted_year(y, m);
    assert(0 <= days_before(m) <= 400);
}

/// The first day of 1970 is day zero.
pub proof fn law_epoch()
    ensures
        days(1970, 1, 1) == 0,
{
}

/// The months of the Gregorian calendar follow each other without a gap: the first day of a
/// month comes as many days after that of the month before as the month before has.
pub proof fn law_months_follow(y: int, m: int)
    requires
        1 <= m <= 12,
    ensures
        ({
            let (ny, nm) = if m == 12 {
                (y + 1, 1)
            } else {
                (y, m + 1)
            };
            days(ny, nm, 1) == days(y, m, 1) + days_in_month(y, m)
        }),
{
    let z = shifted_year(y, m);
    let (ny, nm) = if m == 12 {
        (y + 1, 1)
    } else {
        (y, m + 1)
    };
    lemma_days(y, m, 1);
    lemma_days(ny, nm, 1);
    if m == 2 {
        lemma_year_length(y);
    }
}

/// The days of the years up to `z`, each of which starts with March.
#[verifier::opaque]
spec fn days_of_years(z: int) -> int {
    365 * z + leap_days(z)
}

proof fn lemma_days(y: int, m: int, d: int)
    ensures
        days(y, m, d) == days_of_years(shifted_year(y, m)) + days_before(m) + d - 719_469,
{
    reveal(days_of_years);
}

proof fn lemma_year_length(y: int)
    ensures
        days_of_years(y) - days_of_years(y - 1) == if is_leap(y) {
            366int
        } else {
            365
        },
{
    reveal(days_of_years);
    let z = y - 1;
    assert(y / 4 - z / 4 == if y % 4 == 0 {
        1int
    } else {
        0
    });
    assert(y / 100 - z / 100 == if y % 100 == 0 {
        1int
    } else {
        0
    });
    assert(y / 400 - z / 400 == if y % 400 == 0 {
        1int
    } else {
        0
    });
}

/// Days follow each other within a month.
pub proof fn law_days_follow(y: int, m: int, d: int)
    ensures
        days(y, m, d + 1) == days(y, m, d) + 1,
{
}

proof fn lemma_weeks(a: int, b: int, k: int)
    requires
        a == b + 7 * k,
    ensures
        a % 7 == b % 7,
{
}

/// The days before month `m` in a year that starts with March.
spec fn days_before(m: int) -> int {
    quotient(
        153 * (if m <= 2 {
            m + 9
        } else {
            m - 3
        }) + 2,
        5,
    )
}

/// The table of Sakamoto's method and the lengths of the months agree.
proof fn lemma_month_shift(m: int) -> (k: int)
    requires
        1 <= m <= 12,
    ensures
        days_before(m) - 719_472 == month_shift(m) + 7 * k,
{
    (days_before(m) - 719_472 - month_shift(m)) / 7
}

/// The day of the week goes round with the days: both ways of counting agree, 1970-01-01
/// being a Thursday.
pub proof fn law_weekday_follows_days(y: int, m: int, d: int)
    requires
        1 <= m <= 12,
    ensures
        weekday(y, m, d) == (days(y, m, d) + 3) % 7,
{
    let z = shifted_year(y, m);
    let sum = week_sum(y, m, d);
    let k = lemma_month_shift(m);
    lemma_days(y, m, d);
    assert(days_of_years(z) + month_shift(m) + d == sum + 364 * z) by {
        reveal(days_of_years);
    }
    lemma_weeks(days(y, m, d) + 3, sum + 6, 52 * z + k);
}

} // verus!
