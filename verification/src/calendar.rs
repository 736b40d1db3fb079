//! The proleptic Gregorian calendar, as far as an instant needs it.
use vstd::prelude::*;

verus! {

/// The first year a date can lie in.
pub const MIN_YEAR: i32 = -262_143;

/// The last year a date can lie in.
pub const MAX_YEAR: i32 = 262_142;

/// The number of the first day of the first year, counted from the first of January of year one,
/// which is day one.
pub const MIN_DAY: i64 = -95_746_129;

/// The number of the last day of the last year.
pub const MAX_DAY: i64 = 95_745_399;

/// The number of the first of January 1970.
pub const EPOCH_DAY: i64 = 719_163;

pub const SECS_PER_DAY: i64 = 86_400;

pub open spec fn leap(y: int) -> bool {
    y % 4 == 0 && (y % 100 != 0 || y % 400 == 0)
}

pub open spec fn month_len(y: int, m: int) -> int {
    if m == 2 {
        if leap(y) {
            29
        } else {
            28
        }
    } else if m == 4 || m == 6 || m == 9 || m == 11 {
        30
    } else {
        31
    }
}

/// The days of a year before one of its months.
pub open spec fn before_month(y: int, m: int) -> int
    decreases m,
{
    if m <= 1 {
        0
    } else {
        before_month(y, m - 1) + month_len(y, m - 1)
    }
}

/// The days before a year, counted from the first of January of year one.
pub open spec fn before_year(y: int) -> int {
    365 * (y - 1) + (y - 1) / 4 - (y - 1) / 100 + (y - 1) / 400
}

/// The number of a day: the first of January of year one is day one.
pub open spec fn day_number(y: int, m: int, d: int) -> int {
    before_year(y) + before_month(y, m) + d
}

/// A date the calendar has, in the years a date can lie in.
pub open spec fn valid_date(y: int, m: int, d: int) -> bool {
    &&& MIN_YEAR <= y <= MAX_YEAR
    &&& 1 <= m <= 12
    &&& 1 <= d <= month_len(y, m)
}

/// Calls `chrono::NaiveDate::from_ymd_opt` and `num_days_from_ce` of the date it returns. The first
/// refuses exactly the dates that the Gregorian calendar does not have and those outside the years a
/// `NaiveDate` holds; the second counts the days of that calendar with the first of January of year
/// one as day one.
#[verifier::external_body]
pub(crate) fn day_of_date(year: i32, month: u32, day: u32) -> (r: Option<i32>)
    ensures
        match r {
            Some(n) => valid_date(year as int, month as int, day as int) && n == day_number(
                year as int,
                month as int,
                day as int,
            ),
            None => !valid_date(year as int, month as int, day as int),
        },
{
    chrono::NaiveDate::from_ymd_opt(year, month, day).map(
        |d| chrono::Datelike::num_days_from_ce(&d),
    )
}

/// Calls `chrono::NaiveDate::from_num_days_from_ce_opt` and reads year, month and day off the date:
/// the date with that number, for the numbers of the days a `NaiveDate` holds and no others.
#[verifier::external_body]
pub(crate) fn date_of_day(day: i32) -> (r: Option<(i32, u32, u32)>)
    ensures
        r is Some <==> MIN_DAY <= day <= MAX_DAY,
        r matches Some(ymd) ==> valid_date(ymd.0 as int, ymd.1 as int, ymd.2 as int) && day_number(
            ymd.0 as int,
            ymd.1 as int,
            ymd.2 as int,
        ) == day,
{
    chrono::NaiveDate::from_num_days_from_ce_opt(day).map(
        |d| (chrono::Datelike::year(&d), chrono::Datelike::month(&d), chrono::Datelike::day(&d)),
    )
}

pub proof fn lemma_month_range(y: int, m: int, d: int)
    requires
        1 <= m <= 12,
        1 <= d <= month_len(y, m),
    ensures
        1 <= before_month(y, m) + d <= 365 + (if leap(y) {
            1int
        } else {
            0
        }),
{
    reveal_with_fuel(before_month, 13);
}

proof fn lemma_year_step(y: int)
    ensures
        before_year(y + 1) == before_year(y) + 365 + (if leap(y) {
            1int
        } else {
            0
        }),
{
    assert(y % 100 == 0 ==> y % 4 == 0);
    assert(y % 400 == 0 ==> y % 100 == 0);
    assert(y / 4 - (y - 1) / 4 == if y % 4 == 0 { 1int } else { 0 });
    assert(y / 100 - (y - 1) / 100 == if y % 100 == 0 { 1int } else { 0 });
    assert(y / 400 - (y - 1) / 400 == if y % 400 == 0 { 1int } else { 0 });
}

proof fn lemma_years_apart(y: int, z: int)
    requires
        y < z,
    ensures
        before_year(z) >= before_year(y) + 365 + (if leap(y) {
            1int
        } else {
            0
        }),
    decreases z - y,
{
    lemma_year_step(z - 1);
    if y < z - 1 {
        lemma_years_apart(y, z - 1);
    }
}

proof fn lemma_months_apart(y: int, m: int, n: int)
    requires
        1 <= m < n,
    ensures
        before_month(y, n) >= before_month(y, m) + month_len(y, m),
    decreases n,
{
    if m < n - 1 {
        lemma_months_apart(y, m, n - 1);
    }
}

/// Every day has one date.
pub proof fn a_day_has_one_date(y: int, m: int, d: int, y2: int, m2: int, d2: int)
    requires
        valid_date(y, m, d),
        valid_date(y2, m2, d2),
        day_number(y, m, d) == day_number(y2, m2, d2),
    ensures
        y == y2 && m == m2 && d == d2,
{
    lemma_month_range(y, m, d);
    lemma_month_range(y2, m2, d2);
    if y < y2 {
        lemma_years_apart(y, y2);
    }
    if y2 < y {
        lemma_years_apart(y2, y);
    }
    if m < m2 {
        lemma_months_apart(y, m, m2);
    }
    if m2 < m {
        lemma_months_apart(y, m2, m);
    }
}

/// A date's number lies among the numbers of the days there are.
pub proof fn lemma_day_in_range(y: int, m: int, d: int)
    requires
        valid_date(y, m, d),
    ensures
        MIN_DAY <= day_number(y, m, d) <= MAX_DAY,
{
    lemma_month_range(y, m, d);
    if y > MIN_YEAR {
        lemma_years_apart(MIN_YEAR as int, y);
    }
    if y < MAX_YEAR {
        lemma_years_apart(y, MAX_YEAR as int);
    }
    assert(before_year(MIN_YEAR as int) == MIN_DAY - 1);
    assert(before_year(MAX_YEAR as int) == MAX_DAY - 365);
}

/// Where the days of the years of four digits lie.
pub proof fn lemma_four_digit_year(y: int, m: int, d: int)
    requires
        valid_date(y, m, d),
        0 <= y <= 9999,
    ensures
        -366 < day_number(y, m, d) <= 3_652_059,
{
    lemma_month_range(y, m, d);
    if y > 0 {
        lemma_years_apart(0, y);
    }
    if y < 9999 {
        lemma_years_apart(y, 9999);
    }
}

/// A wall-clock reading: the calendar fields an instant shows on one zone.
#[derive(Debug, Clone, Copy, PartialEq, Eq, Structural)]
pub struct Civil {
    /// Calendar year.
    pub year: i32,
    /// Month, 1..=12.
    pub month: u32,
    /// Day of month, 1..=31.
    pub day: u32,
    /// Hour of a 24-hour clock, 0..=23.
    pub hour: u32,
    /// Minute, 0..=59.
    pub minute: u32,
    /// Second, 0..=59.
    pub second: u32,
}

impl Civil {
    /// A reading that a wall clock can show.
    pub open spec fn valid(self) -> bool {
        &&& valid_date(self.year as int, self.month as int, self.day as int)
        &&& self.hour < 24
        &&& self.minute < 60
        &&& self.second < 60
    }

    /// The seconds between the reading and the first instant of 1970, on the same wall clock.
    pub open spec fn secs(self) -> int {
        (day_number(self.year as int, self.month as int, self.day as int) - EPOCH_DAY) * SECS_PER_DAY
            + self.hour * 3600 + self.minute * 60 + self.second
    }
}

/// The day a number of seconds since 1970 falls on.
pub open spec fn day_of_secs(secs: int) -> int {
    secs / 86_400 + EPOCH_DAY
}

/// The seconds fall on a day that a date can have.
pub open spec fn dated(secs: int) -> bool {
    MIN_DAY <= day_of_secs(secs) <= MAX_DAY
}

/// A wall clock shows one reading at a time.
pub proof fn a_second_has_one_reading(c: Civil, d: Civil)
    requires
        c.valid(),
        d.valid(),
        c.secs() == d.secs(),
    ensures
        c == d,
{
    lemma_reading_splits(c);
    lemma_reading_splits(d);
    a_day_has_one_date(
        c.year as int,
        c.month as int,
        c.day as int,
        d.year as int,
        d.month as int,
        d.day as int,
    );
}

/// A reading's seconds fall on its own day, and what is left over is its time of day.
pub proof fn lemma_reading_splits(c: Civil)
    requires
        c.valid(),
    ensures
        day_of_secs(c.secs()) == day_number(c.year as int, c.month as int, c.day as int),
        c.secs() % 86_400 == c.hour * 3600 + c.minute * 60 + c.second,
        dated(c.secs()),
{
    lemma_day_in_range(c.year as int, c.month as int, c.day as int);
}

/// Division of an `i64` that rounds down.
pub(crate) fn floor_div(a: i64, b: i64) -> (r: i64)
    requires
        b == 1000 || b == 86_400,
    ensures
        r == a as int / b as int,
{
    if a >= 0 {
        a / b
    } else if b == 1000 {
        -((-(a + 1)) / 1000) - 1
    } else {
        -((-(a + 1)) / 86_400) - 1
    }
}

/// Whether a number of seconds since 1970 falls on a day that a date can have.
pub fn is_dated(secs: i64) -> (r: bool)
    ensures
        r == dated(secs as int),
{
    let day: i64 = floor_div(secs, 86_400) + EPOCH_DAY;
    MIN_DAY <= day && day <= MAX_DAY
}

/// The reading of a wall clock so many seconds after it showed the first instant of 1970.
pub fn reading_of(secs: i64) -> (r: Option<Civil>)
    ensures
        r is Some <==> dated(secs as int),
        r matches Some(c) ==> c.valid() && c.secs() == secs,
{
    if !is_dated(secs) {
        return None;
    }
    let day: i64 = floor_div(secs, 86_400);
    let rest: i64 = secs - day * 86_400;
    assert(0 <= rest < 86_400);
    match date_of_day((day + EPOCH_DAY) as i32) {
        Some(ymd) => {
            let (year, month, d): (i32, u32, u32) = ymd;
            let c = Civil {
                year,
                month,
                day: d,
                hour: (rest / 3600) as u32,
                minute: (rest % 3600 / 60) as u32,
                second: (rest % 60) as u32,
            };
            Some(c)
        },
        None => None,
    }
}

/// The seconds of the reading these fields make, when they make one.
pub fn secs_of(year: i32, month: u32, day: u32, hour: u32, minute: u32, second: u32) -> (r: Option<
    i64,
>)
    ensures
        ({
            let c = Civil { year, month, day, hour, minute, second };
            match r {
                Some(s) => c.valid() && s == c.secs(),
                None => !c.valid(),
            }
        }),
{
    match day_of_date(year, month, day) {
        Some(n) => {
            proof {
                lemma_day_in_range(year as int, month as int, day as int);
            }
            if hour < 24 && minute < 60 && second < 60 {
                Some(
                    (n as i64 - EPOCH_DAY) * SECS_PER_DAY + hour as i64 * 3600 + minute as i64 * 60
                        + second as i64,
                )
            } else {
                None
            }
        },
        None => None,
    }
}

// ---- what the calendar keeps -----------------------------------------------------------------

/// The calendar in its own terms: the day after the last of a month is the first of the next one, the
/// day after the last of December is the first of the next year, and the first of January 1970 is where
/// seconds are counted from.
pub proof fn days_follow_one_another(y: int, m: int, d: int)
    requires
        1 <= m <= 12,
    ensures
        day_number(y, m, d + 1) == day_number(y, m, d) + 1,
        m < 12 ==> day_number(y, m + 1, 1) == day_number(y, m, month_len(y, m)) + 1,
        day_number(y + 1, 1, 1) == day_number(y, 12, 31) + 1,
        day_number(1970, 1, 1) == EPOCH_DAY,
        month_len(y, m) == 31 <==> m == 1 || m == 3 || m == 5 || m == 7 || m == 8 || m == 10 || m == 12,
        month_len(y, m) == 30 <==> m == 4 || m == 6 || m == 9 || m == 11,
        m == 2 ==> (month_len(y, m) == 29 <==> (y % 4 == 0 && y % 100 != 0) || y % 400 == 0),
        m == 2 ==> month_len(y, m) == 28 || month_len(y, m) == 29,
{
    lemma_year_step(y);
    reveal_with_fuel(before_month, 13);
    assert(y % 400 == 0 ==> y % 4 == 0);
}

/// A reading is so many seconds into its day, and its day so many from the first of 1970: a second, a
/// minute, an hour or a day later is that many seconds later.
pub proof fn seconds_follow_the_clock(c: Civil, d: Civil)
    ensures
        d.secs() - c.secs() == 86_400 * (day_number(d.year as int, d.month as int, d.day as int)
            - day_number(c.year as int, c.month as int, c.day as int)) + 3600 * (d.hour - c.hour) + 60
            * (d.minute - c.minute) + (d.second - c.second),
        (Civil { year: 1970, month: 1, day: 1, hour: 0, minute: 0, second: 0 }).secs() == 0,
        c.valid() <==> MIN_YEAR <= c.year <= MAX_YEAR && 1 <= c.month <= 12 && 1 <= c.day <= month_len(
            c.year as int,
            c.month as int,
        ) && c.hour <= 23 && c.minute <= 59 && c.second <= 59,
{
    days_follow_one_another(1970, 1, 1);
}

} // verus!
