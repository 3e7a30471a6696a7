//! Calendar dates as plain values, with the arithmetic the evaluator needs:
//! leap years, month lengths, day-of-year, and lexicographic comparison.

use vstd::prelude::*;

verus! {

/// A proleptic Gregorian calendar date held as plain values.
#[derive(Clone, Copy, PartialEq, Eq, Structural, Debug)]
pub struct Date {
    pub year: i32,
    pub month: u32,
    pub day: u32,
}

/// A year divisible by 4 is a leap year, except century years not divisible
/// by 400.
pub open spec fn spec_is_leap_year(y: int) -> bool {
    y % 4 == 0 && (y % 100 != 0 || y % 400 == 0)
}

/// Length of a month in the given year; 0 for a month outside 1..=12.
pub open spec fn spec_days_in_month(y: int, m: int) -> int {
    if m == 1 || m == 3 || m == 5 || m == 7 || m == 8 || m == 10 || m == 12 {
        31
    } else if m == 4 || m == 6 || m == 9 || m == 11 {
        30
    } else if m == 2 {
        if spec_is_leap_year(y) {
            29
        } else {
            28
        }
    } else {
        0
    }
}

/// Days of the year strictly before month `m` begins.
pub open spec fn spec_days_before_month(y: int, m: int) -> int
    decreases m,
{
    if m <= 1 {
        0
    } else {
        spec_days_before_month(y, m - 1) + spec_days_in_month(y, m - 1)
    }
}

/// Number of days in the year: 366 in a leap year, else 365.
pub open spec fn spec_days_in_year(y: int) -> int {
    spec_days_before_month(y, 13)
}

/// Ordinal of the date within its year, starting at 1 for January 1.
pub open spec fn spec_day_of_year(d: Date) -> int {
    spec_days_before_month(d.year as int, d.month as int) + d.day as int
}

/// Bound on years, generous enough for every date chrono can hold, tight
/// enough that all arithmetic here stays far from overflow.
pub open spec fn year_in_range(y: int) -> bool {
    -1000000 <= y <= 1000000
}

impl Date {
    /// The month and day form a real calendar date.
    pub open spec fn calendar_valid(self) -> bool {
        &&& 1 <= self.month <= 12
        &&& 1 <= self.day <= spec_days_in_month(self.year as int, self.month as int)
    }

    /// A real calendar date whose year is also in range.
    pub open spec fn valid(self) -> bool {
        &&& year_in_range(self.year as int)
        &&& self.calendar_valid()
    }

    /// Lexicographic order on (year, month, day), which is chronological
    /// order for valid dates.
    pub open spec fn spec_lt(self, other: Date) -> bool {
        ||| self.year < other.year
        ||| (self.year == other.year && self.month < other.month)
        ||| (self.year == other.year && self.month == other.month && self.day < other.day)
    }

    pub fn is_leap_year(y: i32) -> (r: bool)
        ensures
            r == spec_is_leap_year(y as int),
    {
        y % 4 == 0 && (y % 100 != 0 || y % 400 == 0)
    }

    pub fn days_in_month(y: i32, m: u32) -> (r: u32)
        ensures
            r as int == spec_days_in_month(y as int, m as int),
    {
        if m == 1 || m == 3 || m == 5 || m == 7 || m == 8 || m == 10 || m == 12 {
            31
        } else if m == 4 || m == 6 || m == 9 || m == 11 {
            30
        } else if m == 2 {
            if Self::is_leap_year(y) {
                29
            } else {
                28
            }
        } else {
            0
        }
    }

    pub fn day_of_year(self) -> (r: u32)
        requires
            self.calendar_valid(),
        ensures
            r as int == spec_day_of_year(self),
            1 <= r <= 366,
    {
        proof {
            lemma_day_of_year_bounds(self);
            lemma_days_in_year_bounds(self.year as int);
        }
        let mut acc: u32 = 0;
        let mut m: u32 = 1;
        while m < self.month
            invariant
                1 <= m <= self.month <= 12,
                self.calendar_valid(),
                acc as int == spec_days_before_month(self.year as int, m as int),
                acc <= 366,
            decreases self.month - m,
        {
            proof {
                lemma_days_before_month_bounds(self.year as int, m as int + 1);
            }
            acc = acc + Self::days_in_month(self.year, m);
            m = m + 1;
        }
        acc + self.day
    }

    pub fn lt(self, other: Date) -> (r: bool)
        ensures
            r == self.spec_lt(other),
    {
        if self.year != other.year {
            self.year < other.year
        } else if self.month != other.month {
            self.month < other.month
        } else {
            self.day < other.day
        }
    }

    pub fn is_valid(self) -> (r: bool)
        ensures
            r == self.valid(),
    {
        -1000000 <= self.year && self.year <= 1000000 && 1 <= self.month && self.month <= 12
            && 1 <= self.day && self.day <= Self::days_in_month(self.year, self.month)
    }
}

/// Cumulative month lengths never go negative.
pub proof fn lemma_days_before_month_nonneg(y: int, m: int)
    ensures
        0 <= spec_days_before_month(y, m),
    decreases m,
{
    if m > 1 {
        lemma_days_before_month_nonneg(y, m - 1);
    }
}

/// Cumulative month lengths are bounded by the length of the year.
pub proof fn lemma_days_before_month_bounds(y: int, m: int)
    requires
        1 <= m <= 13,
    ensures
        0 <= spec_days_before_month(y, m) <= spec_days_before_month(y, 13),
        spec_days_before_month(y, 13) <= 366,
{
    lemma_days_before_month_nonneg(y, m);
    lemma_days_before_month_monotone(y, m, 13);
    lemma_days_in_year_bounds(y);
}

/// A year has 366 days when it is a leap year and 365 otherwise.
pub proof fn lemma_days_in_year_bounds(y: int)
    ensures
        spec_days_in_year(y) == if spec_is_leap_year(y) {
            366int
        } else {
            365int
        },
{
    reveal_with_fuel(spec_days_before_month, 14);
}

/// The ordinal of a valid date lies within its year.
pub proof fn lemma_day_of_year_bounds(d: Date)
    requires
        d.calendar_valid(),
    ensures
        1 <= spec_day_of_year(d) <= spec_days_in_year(d.year as int),
{
    lemma_days_before_month_bounds(d.year as int, d.month as int);
    lemma_days_before_month_bounds(d.year as int, d.month as int + 1);
}

/// Cumulative month lengths grow with the month.
pub proof fn lemma_days_before_month_monotone(y: int, m1: int, m2: int)
    requires
        m1 <= m2,
    ensures
        spec_days_before_month(y, m1) <= spec_days_before_month(y, m2),
    decreases m2 - m1,
{
    if m1 < m2 {
        lemma_days_before_month_monotone(y, m1, m2 - 1);
        if m2 - 1 >= 1 {
            assert(spec_days_in_month(y, m2 - 1) >= 0);
        }
    }
}

/// Within one year, the day-of-year ordinal respects chronological order.
pub proof fn lemma_day_of_year_monotone(a: Date, b: Date)
    requires
        a.calendar_valid(),
        b.calendar_valid(),
        a.year == b.year,
        a.spec_lt(b),
    ensures
        spec_day_of_year(a) < spec_day_of_year(b),
{
    let y = a.year as int;
    if a.month == b.month {
    } else {
        lemma_days_before_month_monotone(y, a.month as int + 1, b.month as int);
        assert(spec_days_before_month(y, a.month as int + 1) == spec_days_before_month(
            y,
            a.month as int,
        ) + spec_days_in_month(y, a.month as int));
    }
}

/// Relies on `chrono::Local::now` and `NaiveDate`'s accessors `year`,
/// `month` and `day`: the current local calendar date, whose month is in
/// 1..=12 and whose day is valid for its month and year, with the year
/// within chrono's documented `NaiveDate` range (about +/-262000), well
/// inside `year_in_range`.
#[verifier::external_body]
pub fn today_local() -> (d: Date)
    ensures
        d.valid(),
{
    let now = chrono::Local::now().date_naive();
    Date { year: chrono::Datelike::year(&now), month: chrono::Datelike::month(&now), day: chrono::Datelike::day(&now) }
}

} // verus!
