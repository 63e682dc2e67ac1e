//! Which day and which minute a written time is, counted out.
use crate::calendar;
use crate::text;
use vstd::prelude::*;

verus! {

/// The days of year `y`.
pub open spec fn year_length(y: int) -> int {
    if y % 400 == 0 {
        366
    } else if y % 100 == 0 {
        365
    } else if y % 4 == 0 {
        366
    } else {
        365
    }
}

/// The days of month `m` of year `y`.
pub open spec fn month_length(y: int, m: int) -> int {
    if m == 2 {
        year_length(y) - 337
    } else {
        seq![31int, 0, 31, 30, 31, 30, 31, 31, 30, 31, 30, 31][m - 1]
    }
}

/// The days of the years before `y`, from year zero on.
pub open spec fn years_before(y: nat) -> int
    decreases y,
{
    if y == 0 {
        0
    } else {
        years_before((y - 1) as nat) + year_length(y - 1)
    }
}

/// The days of the months of year `y` before month `m`.
pub open spec fn months_before(y: int, m: int) -> int
    decreases m,
{
    if m <= 1 {
        0
    } else {
        months_before(y, m - 1) + month_length(y, m - 1)
    }
}

/// The days from 1970-01-01 to a day.
pub open spec fn day_count(y: int, m: int, d: int) -> int {
    years_before(y as nat) + months_before(y, m) + d - 1 - years_before(1970)
}

/// There is such a day.
pub open spec fn is_day(y: int, m: int, d: int) -> bool {
    1 <= m <= 12 && 1 <= d <= month_length(y, m)
}

/// The number in the bytes `a` to `b` of `s`.
pub open spec fn field(s: Seq<u8>, a: int, b: int) -> int {
    text::worth(s.subrange(a, b))
}

/// Figures stand in the bytes `a` to `b` of `s`.
pub open spec fn filled(s: Seq<u8>, a: int, b: int) -> bool {
    forall|i: int| a <= i < b ==> text::is_figure(#[trigger] s[i])
}

/// `s` names a day and an hour: `YYYY-MM-DDTHH`, with any byte between the numbers.
pub open spec fn names_hour(s: Seq<u8>) -> bool {
    &&& filled(s, 0, 4) && filled(s, 5, 7) && filled(s, 8, 10) && filled(s, 11, 13)
    &&& is_day(field(s, 0, 4), field(s, 5, 7), field(s, 8, 10))
    &&& field(s, 11, 13) < 24
}

/// `s` names a day, an hour and a minute: `YYYY-MM-DDTHH:MM`.
pub open spec fn names_minute(s: Seq<u8>) -> bool {
    names_hour(s) && filled(s, 14, 16) && field(s, 14, 16) < 60
}

/// The day that `s` names.
pub open spec fn day_named(s: Seq<u8>) -> int {
    day_count(field(s, 0, 4), field(s, 5, 7), field(s, 8, 10))
}

/// The minutes from 1970-01-01T00:00 to the one that `s` names.
pub open spec fn minute_named(s: Seq<u8>) -> int {
    (day_named(s) * 24 + field(s, 11, 13)) * 60 + field(s, 14, 16)
}

/// The day of the week of day `n`: 0 is Monday, and the first day of 1970 was a Thursday.
pub open spec fn weekday_of(n: int) -> int {
    (n + 3) % 7
}

proof fn lemma_month_length(y: int, m: int)
    requires
        1 <= m <= 12,
    ensures
        calendar::days_in_month(y, m) == month_length(y, m),
        year_length(y) == if calendar::is_leap(y) {
            366int
        } else {
            365
        },
{
}

proof fn lemma_months(y: int, m: int)
    requires
        1 <= m <= 12,
    ensures
        calendar::days(y, m, 1) == calendar::days(y, 1, 1) + months_before(y, m),
    decreases m,
{
    if m > 1 {
        lemma_months(y, m - 1);
        calendar::law_months_follow(y, m - 1);
        lemma_month_length(y, m - 1);
    }
}

proof fn lemma_year(y: int)
    ensures
        calendar::days(y + 1, 1, 1) == calendar::days(y, 1, 1) + year_length(y),
{
    lemma_months(y, 12);
    calendar::law_months_follow(y, 12);
    lemma_month_length(y, 12);
    reveal_with_fuel(months_before, 12);
    assert(months_before(y, 12) == year_length(y) - 31);
}

proof fn lemma_years(y: nat)
    ensures
        calendar::days(y as int, 1, 1) == calendar::days(0, 1, 1) + years_before(y),
    decreases y,
{
    if y > 0 {
        lemma_years((y - 1) as nat);
        lemma_year(y - 1);
    }
}

proof fn lemma_days_within(y: int, m: int, d: int)
    ensures
        calendar::days(y, m, d) == calendar::days(y, m, 1) + d - 1,
{
}

/// Days are counted out: year by year, month by month, day by day.
pub proof fn lemma_day_count(y: int, m: int, d: int)
    requires
        0 <= y,
        1 <= m <= 12,
    ensures
        calendar::days(y, m, d) == day_count(y, m, d),
{
    lemma_years(y as nat);
    lemma_years(1970);
    calendar::law_epoch();
    lemma_months(y, m);
    lemma_days_within(y, m, d);
}

/// The days since 1970-01-01 are those of the years, the months and the days in between.
pub proof fn law_days_are_counted_out(y: i64, m: i64, d: i64, r: i64)
    requires
        call_ensures(calendar::days_since_epoch, (y, m, d), r),
        0 <= y,
        1 <= m <= 12,
    ensures
        r == day_count(y as int, m as int, d as int),
{
    lemma_day_count(y as int, m as int, d as int);
}

/// The calendar repeats itself: four hundred years later it is 146,097 days later.
pub proof fn law_calendar_repeats(y: i64, m: i64, d: i64, r: i64, s: i64)
    requires
        y <= i64::MAX - 400,
        call_ensures(calendar::days_since_epoch, (y, m, d), r),
        call_ensures(calendar::days_since_epoch, ((y + 400) as i64, m, d), s),
    ensures
        s == r + 146_097,
{
    let z = if m <= 2 {
        y - 1
    } else {
        y as int
    };
    assert((z + 400) / 4 == z / 4 + 100);
    assert((z + 400) / 100 == z / 100 + 4);
    assert((z + 400) / 400 == z / 400 + 1);
}

/// Months that are counted on behind December go on: five months later it is 153 days later.
pub proof fn law_months_are_counted_on(y: i64, m: i64, d: i64, r: i64, s: i64)
    requires
        2 < m <= i64::MAX - 5,
        call_ensures(calendar::days_since_epoch, (y, m, d), r),
        call_ensures(calendar::days_since_epoch, (y, (m + 5) as i64, d), s),
    ensures
        s == r + 153,
{
}

/// The day of the week goes on with the days.
pub proof fn law_weekday_is_counted_out(y: u32, m: u32, d: u32, r: u32)
    requires
        call_ensures(calendar::day_of_week, (y, m, d), r),
        1 <= m <= 12,
    ensures
        r == weekday_of(day_count(y as int, m as int, d as int)),
{
    lemma_day_count(y as int, m as int, d as int);
    calendar::law_weekday_follows_days(y as int, m as int, d as int);
}

/// A number of figures only is worth what they are, if it fits in 32 bits.
pub proof fn law_figures_are_read(s: &[u8], r: Option<u32>)
    requires
        call_ensures(calendar::parse_u32, (s,), r),
    ensures
        r is Some <==> text::are_figures(s@) && text::worth(s@) <= 0xffff_ffff,
        r matches Some(v) ==> v == text::worth(s@),
{
    text::lemma_decimal_is_worth(s@);
    assert(calendar::all_digits(s@) <==> text::are_figures(s@)) by {
        if calendar::all_digits(s@) {
            assert forall|i: int| 0 <= i < s@.len() implies text::is_figure(#[trigger] s@[i]) by {
                assert(crate::lex::is_digit(s@[i]));
            }
        }
        if text::are_figures(s@) {
            assert forall|i: int| 0 <= i < s@.len() implies crate::lex::is_digit(
                #[trigger] s@[i],
            ) by {
                assert(text::is_figure(s@[i]));
            }
        }
    }
}

proof fn lemma_part(s: Seq<u8>, a: int, b: int)
    requires
        0 <= a <= b <= s.len(),
        b - a <= 4,
    ensures
        calendar::part(s, a, b) == if filled(s, a, b) {
            Some(field(s, a, b))
        } else {
            None
        },
        filled(s, a, b) ==> 0 <= field(s, a, b) <= 9_999,
{
    let t = s.subrange(a, b);
    text::lemma_decimal_is_worth(t);
    if filled(s, a, b) {
        assert forall|i: int| 0 <= i < t.len() implies text::is_figure(#[trigger] t[i]) by {
            assert(t[i] == s[a + i]);
        }
        text::lemma_worth_bounds(t);
        reveal_with_fuel(text::ten_to, 6);
        assert(text::ten_to(4) == 10_000);
        assert forall|i: int| 0 <= i < t.len() implies crate::lex::is_digit(#[trigger] t[i]) by {
            assert(text::is_figure(t[i]));
        }
    } else {
        let i = choose|i: int| a <= i < b && !text::is_figure(#[trigger] s[i]);
        assert(t[i - a] == s[i]);
        assert(!crate::lex::is_digit(t[i - a]));
    }
}

pub proof fn lemma_hour_and_day(s: Seq<u8>)
    requires
        s.len() >= 13,
    ensures
        calendar::hour_and_day(s) == if names_hour(s) {
            Some((field(s, 11, 13), weekday_of(day_named(s))))
        } else {
            None
        },
        names_hour(s) ==> 0 <= field(s, 0, 4) && 0 <= field(s, 11, 13),
{
    lemma_part(s, 0, 4);
    lemma_part(s, 5, 7);
    lemma_part(s, 8, 10);
    lemma_part(s, 11, 13);
    let (y, m, d) = (field(s, 0, 4), field(s, 5, 7), field(s, 8, 10));
    if 1 <= m <= 12 {
        lemma_month_length(y, m);
    }
    if names_hour(s) {
        lemma_day_count(y, m, d);
        calendar::law_weekday_follows_days(y, m, d);
    }
}

pub proof fn lemma_epoch_minutes(s: Seq<u8>)
    requires
        s.len() >= 16,
    ensures
        calendar::epoch_minutes(s) == if names_minute(s) {
            Some(minute_named(s))
        } else {
            None
        },
{
    lemma_part(s, 0, 4);
    lemma_part(s, 5, 7);
    lemma_part(s, 8, 10);
    lemma_part(s, 11, 13);
    lemma_part(s, 14, 16);
    let (y, m, d) = (field(s, 0, 4), field(s, 5, 7), field(s, 8, 10));
    if 1 <= m <= 12 {
        lemma_month_length(y, m);
    }
    if names_minute(s) {
        lemma_day_count(y, m, d);
    }
}

/// The hour and the day of the week are those of the time that is written; there are none
/// where no day and hour are named.
pub proof fn law_written_hour_is_read(s: &[u8], r: Option<(u32, u32)>)
    requires
        call_ensures(calendar::parse_datetime, (s,), r),
        s@.len() >= 13,
    ensures
        r is Some <==> names_hour(s@),
        r matches Some((h, w)) ==> h == field(s@, 11, 13) && w == weekday_of(day_named(s@)),
{
    lemma_hour_and_day(s@);
}

/// The minutes since 1970-01-01T00:00 are those of the time that is written.
pub proof fn law_written_minute_is_read(s: &[u8], r: Option<i64>)
    requires
        call_ensures(calendar::parse_epoch_minutes, (s,), r),
        s@.len() >= 16,
    ensures
        r is Some <==> names_minute(s@),
        r matches Some(v) ==> v == minute_named(s@),
{
    lemma_epoch_minutes(s@);
}

/// The minutes between two times are those from the earlier to the later one.
pub proof fn law_minutes_between_times(later: &[u8], earlier: &[u8], r: Option<i64>)
    requires
        call_ensures(calendar::minutes_between, (later, earlier), r),
        later@.len() >= 16,
        earlier@.len() >= 16,
    ensures
        r is Some <==> names_minute(later@) && names_minute(earlier@),
        r matches Some(v) ==> minute_named(earlier@) + v == minute_named(later@),
{
    lemma_epoch_minutes(later@);
    lemma_epoch_minutes(earlier@);
}

} // verus!
