//! Dates and times of day in the proleptic Gregorian calendar.
//!
//! The calendar itself is that of the `chrono` crate. Each call into it stands in a function of
//! its own, whose contract says what `chrono` documents.
use crate::text;
use chrono::{Datelike, Timelike};
use vstd::prelude::*;

verus! {

/// The first year of the calendar.
pub const MIN_YEAR: i32 = -262143;

/// The last year of the calendar.
pub const MAX_YEAR: i32 = 262142;

/// A date and a time of day, to the second.
#[derive(Debug, Clone, Copy, PartialEq, Eq, Structural)]
pub struct DateTime {
    pub year: i32,
    pub month: u32,
    pub day: u32,
    pub hour: u32,
    pub minute: u32,
    pub second: u32,
}

/// Whether a year has a 29th of February.
pub open spec fn leap(year: int) -> bool {
    year % 4 == 0 && (year % 100 != 0 || year % 400 == 0)
}

/// The days of a month.
pub open spec fn month_days(year: int, month: int) -> int {
    if month == 2 {
        if leap(year) {
            29
        } else {
            28
        }
    } else if month == 4 || month == 6 || month == 9 || month == 11 {
        30
    } else {
        31
    }
}

/// Whether the calendar has the date.
pub open spec fn valid_date(year: int, month: int, day: int) -> bool {
    MIN_YEAR <= year <= MAX_YEAR && 1 <= month <= 12 && 1 <= day <= month_days(year, month)
}

/// Whether a day has the time.
pub open spec fn valid_time(hour: int, minute: int, second: int) -> bool {
    0 <= hour < 24 && 0 <= minute < 60 && 0 <= second < 60
}

/// The days from the beginning of year 1 to that of `year`.
pub open spec fn days_before_year(year: int) -> int {
    let passed = year - 1;
    365 * passed + passed / 4 - passed / 100 + passed / 400
}

/// The days of `year` before `month`.
pub open spec fn days_before_month(year: int, month: int) -> int
    decreases month,
{
    if month <= 1 {
        0
    } else {
        days_before_month(year, month - 1) + month_days(year, month - 1)
    }
}

/// The number of a day; 1 January of year 1, a Monday, is day 1.
pub open spec fn day_number(year: int, month: int, day: int) -> int {
    days_before_year(year) + days_before_month(year, month) + day
}

impl DateTime {
    /// Whether the date and the time exist.
    pub open spec fn valid(self) -> bool {
        &&& valid_date(self.year as int, self.month as int, self.day as int)
        &&& valid_time(self.hour as int, self.minute as int, self.second as int)
    }

    /// The day of the week, counted from Sunday.
    pub open spec fn weekday(self) -> int {
        day_number(self.year as int, self.month as int, self.day as int) % 7
    }

    /// The number of the minute.
    pub open spec fn minute_number(self) -> int {
        (day_number(self.year as int, self.month as int, self.day as int) * 24 + self.hour) * 60
            + self.minute
    }

    /// The number of the second: the order of times.
    pub open spec fn second_number(self) -> int {
        self.minute_number() * 60 + self.second
    }

    /// Whether the calendar ends with this minute.
    pub open spec fn in_last_minute(self) -> bool {
        self.year == MAX_YEAR && self.month == 12 && self.day == 31 && self.hour == 23
            && self.minute == 59
    }

    /// The same second of the next minute.
    pub open spec fn next_minute(self) -> DateTime {
        if self.minute < 59 {
            DateTime { minute: (self.minute + 1) as u32, ..self }
        } else if self.hour < 23 {
            DateTime { hour: (self.hour + 1) as u32, minute: 0, ..self }
        } else if self.day < month_days(self.year as int, self.month as int) {
            DateTime { day: (self.day + 1) as u32, hour: 0, minute: 0, ..self }
        } else if self.month < 12 {
            DateTime { month: (self.month + 1) as u32, day: 1, hour: 0, minute: 0, ..self }
        } else {
            DateTime { year: (self.year + 1) as i32, month: 1, day: 1, hour: 0, minute: 0, ..self }
        }
    }

    /// The same time on the same day of the month `months` months later, or on the last day of
    /// that month when it is shorter; nothing when the calendar ends before.
    pub open spec fn months_later(self, months: int) -> Option<DateTime> {
        let count = self.year * 12 + (self.month - 1) + months;
        let year = count / 12;
        let month = count % 12 + 1;
        let length = month_days(year, month);
        if year > MAX_YEAR {
            None
        } else {
            Some(
                DateTime {
                    year: year as i32,
                    month: month as u32,
                    day: if self.day > length {
                        length as u32
                    } else {
                        self.day
                    },
                    ..self
                },
            )
        }
    }
}

/// `chrono::NaiveDate::from_ymd_opt` gives a date exactly when the calendar has it.
#[verifier::external_body]
fn date_exists(year: i32, month: u32, day: u32) -> (r: bool)
    ensures
        r == valid_date(year as int, month as int, day as int),
{
    chrono::NaiveDate::from_ymd_opt(year, month, day).is_some()
}

/// `chrono::NaiveTime::from_hms_opt` gives a time exactly when a day has it.
#[verifier::external_body]
fn time_exists(hour: u32, minute: u32, second: u32) -> (r: bool)
    ensures
        r == valid_time(hour as int, minute as int, second as int),
{
    chrono::NaiveTime::from_hms_opt(hour, minute, second).is_some()
}

/// `chrono::Datelike::weekday` is the day of the week in the proleptic Gregorian calendar, and
/// `chrono::Weekday::num_days_from_sunday` counts it from Sunday.
#[verifier::external_body]
fn days_from_sunday(year: i32, month: u32, day: u32) -> (r: u32)
    requires
        valid_date(year as int, month as int, day as int),
    ensures
        r == day_number(year as int, month as int, day as int) % 7,
{
    chrono::NaiveDate::from_ymd_opt(year, month, day).unwrap().weekday().num_days_from_sunday()
}

/// Adding one minute to a `chrono::NaiveDateTime` gives the same second of the next minute; it
/// panics behind the last date.
#[verifier::external_body]
fn plus_one_minute(time: DateTime) -> (r: DateTime)
    requires
        time.valid(),
        !time.in_last_minute(),
    ensures
        r == time.next_minute(),
{
    let date = chrono::NaiveDate::from_ymd_opt(time.year, time.month, time.day).unwrap();
    let before = date.and_hms_opt(time.hour, time.minute, time.second).unwrap();
    let after = before + chrono::Duration::minutes(1);
    DateTime {
        year: after.year(),
        month: after.month(),
        day: after.day(),
        hour: after.hour(),
        minute: after.minute(),
        second: after.second(),
    }
}

/// `chrono::NaiveDateTime::checked_add_months` keeps the time and the day of the month, or takes
/// the last day of a shorter month, and gives `None` behind the last date.
#[verifier::external_body]
fn plus_months(time: DateTime, months: u32) -> (r: Option<DateTime>)
    requires
        time.valid(),
    ensures
        r == time.months_later(months as int),
{
    let date = chrono::NaiveDate::from_ymd_opt(time.year, time.month, time.day).unwrap();
    let before = date.and_hms_opt(time.hour, time.minute, time.second).unwrap();
    before.checked_add_months(chrono::Months::new(months)).map(|after| DateTime {
        year: after.year(),
        month: after.month(),
        day: after.day(),
        hour: after.hour(),
        minute: after.minute(),
        second: after.second(),
    })
}

/// `chrono::NaiveDateTime::and_utc` and `chrono::DateTime::timestamp` count the seconds, without
/// leap seconds, from the beginning of 1970, which is day 719163.
#[verifier::external_body]
fn seconds_since_1970(time: DateTime) -> (r: i64)
    requires
        time.valid(),
    ensures
        r == time.second_number() - 719163 * 86400,
{
    let date = chrono::NaiveDate::from_ymd_opt(time.year, time.month, time.day).unwrap();
    let time = date.and_hms_opt(time.hour, time.minute, time.second).unwrap();
    time.and_utc().timestamp()
}

/// The abbreviated name of a month.
pub open spec fn month_name(month: int) -> Seq<char> {
    if month == 1 {
        "Jan"@
    } else if month == 2 {
        "Feb"@
    } else if month == 3 {
        "Mar"@
    } else if month == 4 {
        "Apr"@
    } else if month == 5 {
        "May"@
    } else if month == 6 {
        "Jun"@
    } else if month == 7 {
        "Jul"@
    } else if month == 8 {
        "Aug"@
    } else if month == 9 {
        "Sep"@
    } else if month == 10 {
        "Oct"@
    } else if month == 11 {
        "Nov"@
    } else {
        "Dec"@
    }
}

/// The abbreviated name of a day of the week, counted from Sunday.
pub open spec fn weekday_name(weekday: int) -> Seq<char> {
    if weekday == 0 {
        "Sun"@
    } else if weekday == 1 {
        "Mon"@
    } else if weekday == 2 {
        "Tue"@
    } else if weekday == 3 {
        "Wed"@
    } else if weekday == 4 {
        "Thu"@
    } else if weekday == 5 {
        "Fri"@
    } else {
        "Sat"@
    }
}

/// A number below 100 in two digits.
pub open spec fn two_digits(n: int) -> Seq<char> {
    seq![text::digit_char((n / 10) as nat), text::digit_char((n % 10) as nat)]
}

/// `chrono::NaiveDateTime::format`, shown as text: `%b` and `%a` are the abbreviated English names
/// of the month and of the day of the week, and `%d`, `%H` and `%M` are the day of the month, the
/// hour and the minute in two digits.
#[verifier::external_body]
fn formatted(time: DateTime, pattern: &str) -> (r: String)
    requires
        time.valid(),
        pattern@ == "%b%d"@ || pattern@ == "%a"@ || pattern@ == "%H:%M"@,
    ensures
        pattern@ == "%b%d"@ ==> r@ == month_name(time.month as int) + two_digits(time.day as int),
        pattern@ == "%a"@ ==> r@ == weekday_name(time.weekday()),
        pattern@ == "%H:%M"@ ==> r@ == two_digits(time.hour as int) + seq![':'] + two_digits(
            time.minute as int,
        ),
{
    let date = chrono::NaiveDate::from_ymd_opt(time.year, time.month, time.day).unwrap();
    let time = date.and_hms_opt(time.hour, time.minute, time.second).unwrap();
    time.format(pattern).to_string()
}

/// A quotient grows by one where the division leaves nothing.
proof fn lemma_next_quotient(n: int, d: int)
    requires
        d > 1,
    ensures
        n / d - (n - 1) / d == (if n % d == 0 {
            1int
        } else {
            0
        }),
{
    let q = n / d;
    let r = n % d;
    vstd::arithmetic::div_mod::lemma_fundamental_div_mod(n, d);
    vstd::arithmetic::mul::lemma_mul_is_commutative(d, q);
    if r == 0 {
        vstd::arithmetic::mul::lemma_mul_is_distributive_sub_other_way(d, q, 1);
        vstd::arithmetic::div_mod::lemma_fundamental_div_mod_converse(n - 1, d, q - 1, d - 1);
    } else {
        vstd::arithmetic::div_mod::lemma_fundamental_div_mod_converse(n - 1, d, q, r - 1);
    }
}

/// A year is followed by the next one after its 365 or 366 days.
proof fn lemma_year_length(year: int)
    ensures
        days_before_year(year + 1) == days_before_year(year) + 365 + (if leap(year) {
            1int
        } else {
            0
        }),
        days_before_month(year, 13) == 365 + (if leap(year) {
            1int
        } else {
            0
        }),
{
    lemma_next_quotient(year, 4);
    lemma_next_quotient(year, 100);
    lemma_next_quotient(year, 400);
    assert(year % 400 == 0 ==> year % 100 == 0);
    assert(year % 100 == 0 ==> year % 4 == 0);
    lemma_months_of_year(year);
}

/// The months of a year make up its days.
proof fn lemma_months_of_year(year: int)
    ensures
        days_before_month(year, 13) == 337 + month_days(year, 2),
{
    assert(days_before_month(year, 1) == 0);
    assert(days_before_month(year, 2) == 31);
    assert(days_before_month(year, 3) == 31 + month_days(year, 2));
    assert(days_before_month(year, 4) == 62 + month_days(year, 2));
    assert(days_before_month(year, 5) == 92 + month_days(year, 2));
    assert(days_before_month(year, 6) == 123 + month_days(year, 2));
    assert(days_before_month(year, 7) == 153 + month_days(year, 2));
    assert(days_before_month(year, 8) == 184 + month_days(year, 2));
    assert(days_before_month(year, 9) == 215 + month_days(year, 2));
    assert(days_before_month(year, 10) == 245 + month_days(year, 2));
    assert(days_before_month(year, 11) == 276 + month_days(year, 2));
    assert(days_before_month(year, 12) == 306 + month_days(year, 2));
}

/// Later years begin later.
proof fn lemma_years_in_order(year: int, later: int)
    requires
        year < later,
    ensures
        days_before_year(year) + days_before_month(year, 13) <= days_before_year(later),
    decreases later - year,
{
    lemma_year_length(year);
    if year + 1 < later {
        lemma_years_in_order(year + 1, later);
        lemma_year_length(year + 1);
    }
}

/// Later months of a year begin later.
proof fn lemma_months_in_order(year: int, month: int, later: int)
    requires
        1 <= month < later,
    ensures
        days_before_month(year, month) + month_days(year, month) <= days_before_month(year, later),
    decreases later - month,
{
    if month + 1 < later {
        lemma_months_in_order(year, month, later - 1);
    }
}

/// Whether a date comes before another, by year, month and day.
pub open spec fn date_before(a: DateTime, b: DateTime) -> bool {
    a.year < b.year || (a.year == b.year && (a.month < b.month || (a.month == b.month && a.day
        < b.day)))
}

/// The numbers of days are in the order of the dates.
pub proof fn lemma_days_in_order(a: DateTime, b: DateTime)
    requires
        a.valid(),
        b.valid(),
        date_before(a, b),
    ensures
        day_number(a.year as int, a.month as int, a.day as int) < day_number(
            b.year as int,
            b.month as int,
            b.day as int,
        ),
{
    if a.year < b.year {
        lemma_years_in_order(a.year as int, b.year as int);
        lemma_months_in_order(a.year as int, a.month as int, 13);
        if b.month > 1 {
            lemma_months_in_order(b.year as int, 1, b.month as int);
        }
    } else if a.month < b.month {
        lemma_months_in_order(a.year as int, a.month as int, b.month as int);
    }
}

/// The number of a minute determines its date, hour and minute.
pub proof fn lemma_minute_unique(a: DateTime, b: DateTime)
    requires
        a.valid(),
        b.valid(),
        a.minute_number() == b.minute_number(),
        a.second == b.second,
    ensures
        a == b,
{
    if date_before(a, b) {
        lemma_days_in_order(a, b);
    } else if date_before(b, a) {
        lemma_days_in_order(b, a);
    }
}

/// The next minute exists, unless the calendar ends, and its number is the next number.
pub proof fn lemma_next_minute(time: DateTime)
    requires
        time.valid(),
        !time.in_last_minute(),
    ensures
        time.next_minute().valid(),
        time.next_minute().minute_number() == time.minute_number() + 1,
{
    lemma_year_length(time.year as int);
    if time.month == 12 {
        assert(days_before_month(time.year as int, 13) == days_before_month(time.year as int, 12)
            + 31);
    }
}

/// The months behind a date, when the calendar has them, lead to a date.
pub proof fn lemma_months_later(time: DateTime, months: int)
    requires
        time.valid(),
        months >= 0,
    ensures
        time.months_later(months) matches Some(later) ==> later.valid(),
{
}

/// No minute comes behind the last one.
pub proof fn lemma_last_minute(time: DateTime, last: DateTime)
    requires
        time.valid(),
        last.valid(),
        last.in_last_minute(),
    ensures
        time.minute_number() <= last.minute_number(),
{
    if date_before(time, last) {
        lemma_days_in_order(time, last);
    }
}

impl DateTime {
    /// The given date and time, if they exist.
    pub fn new(year: i32, month: u32, day: u32, hour: u32, minute: u32, second: u32) -> (r: Option<
        DateTime,
    >)
        ensures
            r == (if valid_date(year as int, month as int, day as int) && valid_time(
                hour as int,
                minute as int,
                second as int,
            ) {
                Some(DateTime { year, month, day, hour, minute, second })
            } else {
                None
            }),
    {
        if date_exists(year, month, day) && time_exists(hour, minute, second) {
            Some(DateTime { year, month, day, hour, minute, second })
        } else {
            None
        }
    }

    /// Whether the calendar has the date.
    pub fn has_date(year: i32, month: u32, day: u32) -> (r: bool)
        ensures
            r == valid_date(year as int, month as int, day as int),
    {
        date_exists(year, month, day)
    }

    /// The day of the week: 0 for Sunday, 6 for Saturday.
    pub fn weekday_from_sunday(&self) -> (r: u32)
        requires
            self.valid(),
        ensures
            r == self.weekday(),
            r < 7,
    {
        days_from_sunday(self.year, self.month, self.day)
    }

    /// Whether the calendar ends with this minute.
    pub fn ends_calendar(&self) -> (r: bool)
        ensures
            r == self.in_last_minute(),
    {
        self.year == MAX_YEAR && self.month == 12 && self.day == 31 && self.hour == 23
            && self.minute == 59
    }

    /// The same second of the next minute.
    pub fn minute_after(&self) -> (r: DateTime)
        requires
            self.valid(),
            !self.in_last_minute(),
        ensures
            r == self.next_minute(),
    {
        plus_one_minute(*self)
    }

    /// The same day of the month some months later, or the last day of a shorter month.
    pub fn months_after(&self, months: u32) -> (r: Option<DateTime>)
        requires
            self.valid(),
        ensures
            r == self.months_later(months as int),
    {
        plus_months(*self, months)
    }

    /// The seconds from the beginning of 1970.
    pub fn unix_timestamp(&self) -> (r: i64)
        requires
            self.valid(),
        ensures
            r == self.second_number() - 719163 * 86400,
    {
        seconds_since_1970(*self)
    }

    /// The abbreviated month and the day, such as `Aug16`.
    pub fn month_and_day(&self) -> (r: String)
        requires
            self.valid(),
        ensures
            r@ == month_name(self.month as int) + two_digits(self.day as int),
    {
        formatted(*self, "%b%d")
    }

    /// The abbreviated day of the week.
    pub fn short_weekday(&self) -> (r: String)
        requires
            self.valid(),
        ensures
            r@ == weekday_name(self.weekday()),
    {
        formatted(*self, "%a")
    }

    /// The hour and the minute, such as `07:30`.
    pub fn hour_and_minute(&self) -> (r: String)
        requires
            self.valid(),
        ensures
            r@ == two_digits(self.hour as int) + seq![':'] + two_digits(self.minute as int),
    {
        formatted(*self, "%H:%M")
    }

    /// Whether this time is not later than `other`.
    pub fn not_after(&self, other: &DateTime) -> (r: bool)
        requires
            self.valid(),
            other.valid(),
        ensures
            r == (self.second_number() <= other.second_number()),
    {
        proof {
            if date_before(*self, *other) {
                lemma_days_in_order(*self, *other);
            } else if date_before(*other, *self) {
                lemma_days_in_order(*other, *self);
            }
        }
        if self.year != other.year {
            self.year < other.year
        } else if self.month != other.month {
            self.month < other.month
        } else if self.day != other.day {
            self.day < other.day
        } else if self.hour != other.hour {
            self.hour < other.hour
        } else if self.minute != other.minute {
            self.minute < other.minute
        } else {
            self.second <= other.second
        }
    }
}

/// Times are in the order of their fields, the year first and the second last.
pub proof fn law_times_are_in_order(a: DateTime, b: DateTime)
    requires
        a.valid(),
        b.valid(),
    ensures
        a.second_number() < b.second_number() <==> (a.year < b.year || (a.year == b.year && (a.month
            < b.month || (a.month == b.month && (a.day < b.day || (a.day == b.day && (a.hour
            < b.hour || (a.hour == b.hour && (a.minute < b.minute || (a.minute == b.minute
            && a.second < b.second)))))))))),
        a.minute_number() < b.minute_number() <==> (a.year < b.year || (a.year == b.year && (a.month
            < b.month || (a.month == b.month && (a.day < b.day || (a.day == b.day && (a.hour
            < b.hour || (a.hour == b.hour && a.minute < b.minute)))))))),
        a.second_number() == b.second_number() <==> a == b,
{
    if date_before(a, b) {
        lemma_days_in_order(a, b);
    } else if date_before(b, a) {
        lemma_days_in_order(b, a);
    }
}

/// The minute behind a minute is the next one in the order of times, and the day of the week
/// changes with midnight, from Sunday (0) to Saturday (6) and again to Sunday.
pub proof fn law_minutes_and_weekdays_follow(time: DateTime)
    requires
        time.valid(),
        !time.in_last_minute(),
    ensures
        time.next_minute().valid(),
        time.next_minute().second == time.second,
        time.next_minute().second_number() == time.second_number() + 60,
        ({
            let midnight = time.hour == 23 && time.minute == 59;
            time.next_minute().weekday() == (if midnight {
                if time.weekday() == 6 {
                    0
                } else {
                    time.weekday() + 1
                }
            } else {
                time.weekday()
            })
        }),
        0 <= time.weekday() <= 6,
{
    lemma_next_minute(time);
    let next = time.next_minute();
    let a = day_number(time.year as int, time.month as int, time.day as int);
    let b = day_number(next.year as int, next.month as int, next.day as int);
    assert(b == a || b == a + 1);
    assert(b == a + 1 <==> (time.hour == 23 && time.minute == 59));
    assert((a + 1) % 7 == (if a % 7 == 6 {
        0
    } else {
        a % 7 + 1
    }));
}

/// The first of January 1970 was a Thursday, and seconds are counted from its midnight.
pub proof fn law_epoch()
    ensures
        ({
            let epoch = DateTime { year: 1970, month: 1, day: 1, hour: 0, minute: 0, second: 0 };
            epoch.valid() && epoch.weekday() == 4 && epoch.second_number() == 719163 * 86400
        }),
{
    assert(days_before_month(1970, 1) == 0);
}

/// Months later it is the same time of the same day, or of the last day of the month where that
/// is shorter.
pub proof fn law_months_later(time: DateTime, months: int)
    requires
        time.valid(),
        0 <= months,
    ensures
        match time.months_later(months) {
            Some(later) => {
                &&& later.valid()
                &&& later.year * 12 + later.month == time.year * 12 + time.month + months
                &&& later.hour == time.hour
                &&& later.minute == time.minute
                &&& later.second == time.second
                &&& later.day <= time.day
                &&& later.day < time.day ==> !valid_date(
                    later.year as int,
                    later.month as int,
                    later.day + 1,
                )
            },
            None => time.year * 12 + time.month + months > MAX_YEAR * 12 + 12,
        },
{
    lemma_months_later(time, months);
}

/// Every fourth year is a leap year, but of the full centuries only every fourth; February then
/// has a day more, and all years have the months that they have.
pub proof fn law_days_of_the_year(year: int)
    ensures
        days_before_year(year + 1) - days_before_year(year) == (if month_days(year, 2) == 29 {
            366int
        } else {
            365
        }),
        days_before_month(year, 13) == days_before_year(year + 1) - days_before_year(year),
        days_before_year(year + 400) - days_before_year(year) == 146097,
        year % 4 != 0 ==> month_days(year, 2) == 28,
        year % 400 == 0 ==> month_days(year, 2) == 29,
        year % 100 == 0 && year % 400 != 0 ==> month_days(year, 2) == 28,
        year % 4 == 0 && year % 100 != 0 ==> month_days(year, 2) == 29,
        month_days(year, 1) == 31 && month_days(year, 3) == 31 && month_days(year, 4) == 30,
        month_days(year, 5) == 31 && month_days(year, 6) == 30 && month_days(year, 7) == 31,
        month_days(year, 8) == 31 && month_days(year, 9) == 30 && month_days(year, 10) == 31,
        month_days(year, 11) == 30 && month_days(year, 12) == 31,
{
    lemma_year_length(year);
    let passed = year - 1;
    assert((passed + 400) / 4 == passed / 4 + 100);
    assert((passed + 400) / 100 == passed / 100 + 4);
    assert((passed + 400) / 400 == passed / 400 + 1);
    assert(year % 400 == 0 ==> year % 100 == 0);
    assert(year % 100 == 0 ==> year % 4 == 0);
}

/// Two digits mean the number.
pub proof fn law_two_digits(n: int)
    requires
        0 <= n < 100,
    ensures
        two_digits(n).len() == 2,
        text::value_of(two_digits(n)) == n,
        text::all_digits(two_digits(n)),
{
    let digits = two_digits(n);
    assert(digits.drop_last() =~= seq![digits[0]]);
    assert(seq![digits[0]].drop_last() =~= seq![]);
    assert(text::value_of(seq![]) == 0);
    assert(text::value_of(seq![digits[0]]) == n / 10);
}

/// The months and the days of the week have their names in this order, three letters each.
pub proof fn law_names_in_order(month: int, weekday: int)
    requires
        1 <= month <= 12,
        0 <= weekday <= 6,
    ensures
        month_name(month) == "JanFebMarAprMayJunJulAugSepOctNovDec"@.subrange(
            3 * (month - 1),
            3 * month,
        ),
        weekday_name(weekday) == "SunMonTueWedThuFriSat"@.subrange(3 * weekday, 3 * weekday + 3),
{
    reveal_strlit("JanFebMarAprMayJunJulAugSepOctNovDec");
    reveal_strlit("SunMonTueWedThuFriSat");
    reveal_strlit("Jan");
    reveal_strlit("Feb");
    reveal_strlit("Mar");
    reveal_strlit("Apr");
    reveal_strlit("May");
    reveal_strlit("Jun");
    reveal_strlit("Jul");
    reveal_strlit("Aug");
    reveal_strlit("Sep");
    reveal_strlit("Oct");
    reveal_strlit("Nov");
    reveal_strlit("Dec");
    reveal_strlit("Sun");
    reveal_strlit("Mon");
    reveal_strlit("Tue");
    reveal_strlit("Wed");
    reveal_strlit("Thu");
    reveal_strlit("Fri");
    reveal_strlit("Sat");
    assert(month_name(month) =~= "JanFebMarAprMayJunJulAugSepOctNovDec"@.subrange(
        3 * (month - 1),
        3 * month,
    ));
    assert(weekday_name(weekday) =~= "SunMonTueWedThuFriSat"@.subrange(
        3 * weekday,
        3 * weekday + 3,
    ));
}

} // verus!
