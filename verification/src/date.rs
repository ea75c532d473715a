//! Calendar dates and day arithmetic.
//!
//! Dates are proleptic-Gregorian, restricted to years 1 through 9999.
//! Every date has a day index: the number of days since 0001-01-01,
//! which is day 0 and a Monday. Weekdays follow the ISO convention,
//! numbered Monday = 0 through Sunday = 6.

use vstd::prelude::*;
use vstd::arithmetic::div_mod::lemma_div_is_ordered_by_denominator;
use vstd::arithmetic::div_mod::lemma_div_nonincreasing;
use vstd::arithmetic::div_mod::lemma_div_pos_is_pos;
use vstd::arithmetic::div_mod::lemma_fundamental_div_mod;
use vstd::arithmetic::div_mod::lemma_fundamental_div_mod_converse;

verus! {

/// One calendar date.
#[derive(Clone, Copy, Debug, PartialEq, Eq, Structural)]
pub struct Date {
    pub year: u32,
    pub month: u32,
    pub day: u32,
}

pub open spec fn is_leap_year(y: int) -> bool {
    (y % 4 == 0 && y % 100 != 0) || y % 400 == 0
}

pub open spec fn days_in_year(y: int) -> int {
    if is_leap_year(y) {
        366
    } else {
        365
    }
}

pub open spec fn days_in_month(y: int, m: int) -> int {
    if m == 2 {
        if is_leap_year(y) {
            29
        } else {
            28
        }
    } else if m == 4 || m == 6 || m == 9 || m == 11 {
        30
    } else {
        31
    }
}

/// Days of year `y` that lie in months strictly before month `m`.
pub open spec fn days_before_month(y: int, m: int) -> int
    decreases m,
{
    if m <= 1 {
        0
    } else {
        days_before_month(y, m - 1) + days_in_month(y, m - 1)
    }
}

/// Days strictly before January 1 of year `y`, counted from 0001-01-01.
pub open spec fn days_before_year(y: int) -> int {
    365 * (y - 1) + (y - 1) / 4 - (y - 1) / 100 + (y - 1) / 400
}

/// The day index of 9999-12-31, the largest representable date.
pub open spec fn max_day_index() -> int {
    days_before_year(10000) - 1
}

impl Date {
    pub open spec fn valid(self) -> bool {
        &&& 1 <= self.year <= 9999
        &&& 1 <= self.month <= 12
        &&& 1 <= self.day <= days_in_month(self.year as int, self.month as int)
    }

    /// Days since 0001-01-01 (day 0, a Monday).
    pub open spec fn day_index(self) -> int {
        days_before_year(self.year as int) + days_before_month(
            self.year as int,
            self.month as int,
        ) + self.day - 1
    }

    /// ISO weekday: Monday = 0 through Sunday = 6.
    pub open spec fn weekday_index(self) -> int {
        self.day_index() % 7
    }

    /// Years and months in one linear scale, for ordering by calendar month.
    pub open spec fn month_index(self) -> int {
        self.year * 12 + self.month
    }
}

/// Relates `(x - 1) / d` to `x / d`: the quotient drops by one exactly
/// when `d` divides `x`.
proof fn lemma_div_step_down(x: int, d: int)
    requires
        1 <= x,
        1 <= d,
    ensures
        (x - 1) / d == x / d - (if x % d == 0 {
            1int
        } else {
            0int
        }),
{
    lemma_fundamental_div_mod(x, d);
    let q = x / d;
    let r = x % d;
    if r == 0 {
        assert(x - 1 == (q - 1) * d + (d - 1)) by (nonlinear_arith)
            requires
                x == d * q + r,
                r == 0,
        ;
        lemma_fundamental_div_mod_converse(x - 1, d, q - 1, d - 1);
    } else {
        assert(x - 1 == q * d + (r - 1)) by (nonlinear_arith)
            requires
                x == d * q + r,
        ;
        lemma_fundamental_div_mod_converse(x - 1, d, q, r - 1);
    }
}

/// One year adds exactly its number of days to the year prefix sum.
pub proof fn lemma_days_before_year_step(y: int)
    requires
        1 <= y,
    ensures
        days_before_year(y + 1) == days_before_year(y) + days_in_year(y),
{
    lemma_div_step_down(y, 4);
    lemma_div_step_down(y, 100);
    lemma_div_step_down(y, 400);
    if y % 400 == 0 {
        lemma_fundamental_div_mod(y, 400);
        lemma_fundamental_div_mod_converse(y, 100, 4 * (y / 400), 0);
        lemma_fundamental_div_mod_converse(y, 4, 100 * (y / 400), 0);
    } else if y % 100 == 0 {
        lemma_fundamental_div_mod(y, 100);
        lemma_fundamental_div_mod_converse(y, 4, 25 * (y / 100), 0);
    }
}

pub proof fn lemma_days_before_year_mono(y1: int, y2: int)
    requires
        1 <= y1 <= y2,
    ensures
        days_before_year(y1) <= days_before_year(y2),
    decreases y2 - y1,
{
    if y1 < y2 {
        lemma_days_before_year_step(y2 - 1);
        lemma_days_before_year_mono(y1, y2 - 1);
    }
}

pub proof fn lemma_days_before_month_mono(y: int, m1: int, m2: int)
    requires
        1 <= m1 <= m2 <= 13,
    ensures
        days_before_month(y, m1) <= days_before_month(y, m2),
    decreases m2 - m1,
{
    if m1 < m2 {
        lemma_days_before_month_mono(y, m1, m2 - 1);
        assert(days_in_month(y, m2 - 1) >= 28);
    }
}

/// The whole year's months sum to the year's number of days.
pub proof fn lemma_days_before_month_full(y: int)
    ensures
        days_before_month(y, 13) == days_in_year(y),
{
    reveal_with_fuel(days_before_month, 13);
}

/// A date's day index lies within its year's span of indices.
pub proof fn lemma_day_index_bounds(d: Date)
    requires
        d.valid(),
    ensures
        days_before_year(d.year as int) <= d.day_index(),
        d.day_index() < days_before_year(d.year as int + 1),
{
    let y = d.year as int;
    let m = d.month as int;
    lemma_days_before_month_mono(y, 1, m);
    assert(days_before_month(y, m + 1) == days_before_month(y, m) + days_in_month(y, m));
    lemma_days_before_month_mono(y, m + 1, 13);
    lemma_days_before_month_full(y);
    lemma_days_before_year_step(y);
}

pub proof fn lemma_day_index_in_range(d: Date)
    requires
        d.valid(),
    ensures
        0 <= d.day_index() <= max_day_index(),
{
    lemma_day_index_bounds(d);
    lemma_days_before_year_mono(1, d.year as int);
    lemma_days_before_year_mono(d.year as int + 1, 10000);
}

/// A date's day index lies within its month's span of indices.
pub proof fn lemma_day_index_month_bounds(d: Date)
    requires
        d.valid(),
    ensures
        days_before_year(d.year as int) + days_before_month(d.year as int, d.month as int)
            <= d.day_index(),
        d.day_index() < days_before_year(d.year as int) + days_before_month(
            d.year as int,
            d.month as int + 1,
        ),
{
    let y = d.year as int;
    let m = d.month as int;
    assert(days_before_month(y, m + 1) == days_before_month(y, m) + days_in_month(y, m));
}

/// Day order refines calendar-month order.
pub proof fn lemma_day_index_month_order(d1: Date, d2: Date)
    requires
        d1.valid(),
        d2.valid(),
        d1.day_index() <= d2.day_index(),
    ensures
        d1.month_index() <= d2.month_index(),
{
    if d1.month_index() > d2.month_index() {
        // Then d2's month ends no later than d1's month begins.
        let y1 = d1.year as int;
        let m1 = d1.month as int;
        let y2 = d2.year as int;
        let m2 = d2.month as int;
        lemma_day_index_month_bounds(d1);
        lemma_day_index_month_bounds(d2);
        if y1 == y2 {
            lemma_days_before_month_mono(y1, m2 + 1, m1);
        } else {
            assert(y2 < y1);
            lemma_days_before_month_mono(y2, m2 + 1, 13);
            lemma_days_before_month_full(y2);
            lemma_days_before_year_step(y2);
            lemma_days_before_year_mono(y2 + 1, y1);
            lemma_days_before_month_mono(y1, 1, m1);
        }
        assert(false);
    }
}

/// A date is determined by its day index.
pub proof fn lemma_day_index_injective(d1: Date, d2: Date)
    requires
        d1.valid(),
        d2.valid(),
        d1.day_index() == d2.day_index(),
    ensures
        d1 == d2,
{
    lemma_day_index_month_order(d1, d2);
    lemma_day_index_month_order(d2, d1);
    assert(d1.year == d2.year && d1.month == d2.month);
}

/// Two valid dates in the same-numbered month of different years are at
/// least 300 days apart.
pub proof fn lemma_same_month_number_far(d1: Date, d2: Date)
    requires
        d1.valid(),
        d2.valid(),
        d1.month == d2.month,
        d1.month_index() < d2.month_index(),
    ensures
        d2.day_index() - d1.day_index() >= 300,
{
    let y1 = d1.year as int;
    let y2 = d2.year as int;
    let m = d1.month as int;
    assert(y1 < y2);
    lemma_day_index_month_bounds(d1);
    lemma_day_index_month_bounds(d2);
    lemma_days_before_year_step(y1);
    lemma_days_before_year_mono(y1 + 1, y2);
    lemma_days_before_month_close(y1, y2, m);
    assert(days_before_month(y1, m + 1) == days_before_month(y1, m) + days_in_month(y1, m));
}

/// Month prefix sums of two years differ by at most one day (February).
proof fn lemma_days_before_month_close(y1: int, y2: int, m: int)
    requires
        1 <= m <= 13,
    ensures
        days_before_month(y1, m) - days_before_month(y2, m) <= if m >= 3 {
            1int
        } else {
            0int
        },
    decreases m,
{
    if m > 1 {
        lemma_days_before_month_close(y1, y2, m - 1);
    }
}

pub fn days_in_month_exec(y: u32, m: u32) -> (n: u32)
    ensures
        n as int == days_in_month(y as int, m as int),
{
    if m == 2 {
        if (y % 4 == 0 && y % 100 != 0) || y % 400 == 0 {
            29
        } else {
            28
        }
    } else if m == 4 || m == 6 || m == 9 || m == 11 {
        30
    } else {
        31
    }
}

impl Date {
    /// Whether the fields form a real calendar date in years 1..=9999.
    pub fn check_valid(&self) -> (ok: bool)
        ensures
            ok == self.valid(),
    {
        1 <= self.year && self.year <= 9999 && 1 <= self.month && self.month <= 12 && 1 <= self.day
            && self.day <= days_in_month_exec(self.year, self.month)
    }

    /// Days since 0001-01-01.
    pub fn to_day_index(&self) -> (n: u32)
        requires
            self.valid(),
        ensures
            n as int == self.day_index(),
    {
        let y = self.year;
        proof {
            lemma_div_is_ordered_by_denominator(y as int - 1, 4, 100);
            lemma_div_nonincreasing(y as int - 1, 4);
            lemma_div_pos_is_pos(y as int - 1, 4);
            lemma_div_pos_is_pos(y as int - 1, 100);
            lemma_div_pos_is_pos(y as int - 1, 400);
            lemma_div_nonincreasing(y as int - 1, 400);
        }
        let before_year: u32 = 365 * (y - 1) + (y - 1) / 4 - (y - 1) / 100 + (y - 1) / 400;
        let mut before_month: u32 = 0;
        let mut m: u32 = 1;
        while m < self.month
            invariant
                1 <= m <= self.month,
                self.valid(),
                before_month as int == days_before_month(self.year as int, m as int),
            decreases self.month - m,
        {
            proof {
                lemma_days_before_month_mono(self.year as int, 1, m as int);
                lemma_days_before_month_mono(self.year as int, m as int + 1, 13);
                lemma_days_before_month_full(self.year as int);
            }
            before_month = before_month + days_in_month_exec(self.year, m);
            m = m + 1;
        }
        proof {
            lemma_days_before_month_mono(self.year as int, 1, m as int);
            lemma_days_before_month_mono(self.year as int, m as int, 13);
            lemma_days_before_month_full(self.year as int);
        }
        before_year + before_month + (self.day - 1)
    }

    /// ISO weekday: Monday = 0 through Sunday = 6.
    pub fn weekday(&self) -> (w: u32)
        requires
            self.valid(),
        ensures
            w as int == self.weekday_index(),
            w < 7,
    {
        self.to_day_index() % 7
    }

    /// The following calendar date.
    pub fn next_day(&self) -> (r: Date)
        requires
            self.valid(),
            self.day_index() < max_day_index(),
        ensures
            r.valid(),
            r.day_index() == self.day_index() + 1,
    {
        let dim = days_in_month_exec(self.year, self.month);
        if self.day < dim {
            Date { year: self.year, month: self.month, day: self.day + 1 }
        } else if self.month < 12 {
            proof {
                let y = self.year as int;
                let m = self.month as int;
                assert(days_before_month(y, m + 1) == days_before_month(y, m) + days_in_month(
                    y,
                    m,
                ));
            }
            Date { year: self.year, month: self.month + 1, day: 1 }
        } else {
            proof {
                let y = self.year as int;
                lemma_days_before_month_full(y);
                assert(days_before_month(y, 13) == days_before_month(y, 12) + days_in_month(
                    y,
                    12,
                ));
                lemma_days_before_year_step(y);
                if self.year == 9999 {
                    assert(self.day_index() == max_day_index());
                    assert(false);
                }
            }
            Date { year: self.year + 1, month: 1, day: 1 }
        }
    }

    /// The preceding calendar date.
    pub fn prev_day(&self) -> (r: Date)
        requires
            self.valid(),
            self.day_index() > 0,
        ensures
            r.valid(),
            r.day_index() == self.day_index() - 1,
    {
        if self.day > 1 {
            Date { year: self.year, month: self.month, day: self.day - 1 }
        } else if self.month > 1 {
            let pm = self.month - 1;
            let pd = days_in_month_exec(self.year, pm);
            proof {
                let y = self.year as int;
                let m = self.month as int;
                assert(days_before_month(y, m) == days_before_month(y, m - 1) + days_in_month(
                    y,
                    m - 1,
                ));
            }
            Date { year: self.year, month: pm, day: pd }
        } else {
            proof {
                let y = self.year as int;
                if self.year == 1 {
                    assert(days_before_year(1) == 0);
                    assert(false);
                }
                lemma_days_before_year_step(y - 1);
                lemma_days_before_month_full(y - 1);
                assert(days_before_month(y - 1, 13) == days_before_month(y - 1, 12)
                    + days_in_month(y - 1, 12));
            }
            Date { year: self.year - 1, month: 12, day: 31 }
        }
    }

    /// The date `k` days later.
    pub fn add_days(&self, k: u32) -> (r: Date)
        requires
            self.valid(),
            self.day_index() + k <= max_day_index(),
        ensures
            r.valid(),
            r.day_index() == self.day_index() + k,
    {
        let mut d = *self;
        let mut i: u32 = 0;
        while i < k
            invariant
                i <= k,
                d.valid(),
                d.day_index() == self.day_index() + i,
                self.valid(),
                self.day_index() + k <= max_day_index(),
            decreases k - i,
        {
            d = d.next_day();
            i = i + 1;
        }
        d
    }

    /// The Monday of the week this date falls in.
    pub fn monday_of_week(&self) -> (m: Date)
        requires
            self.valid(),
        ensures
            m.valid(),
            m.weekday_index() == 0,
            m.day_index() == self.day_index() - self.weekday_index(),
    {
        proof {
            lemma_day_index_in_range(*self);
            lemma_fundamental_div_mod(self.day_index(), 7);
            lemma_div_pos_is_pos(self.day_index(), 7);
        }
        let w = self.weekday();
        let mut m = *self;
        let mut i: u32 = 0;
        while i < w
            invariant
                i <= w,
                m.valid(),
                self.valid(),
                w as int == self.weekday_index(),
                w as int <= self.day_index(),
                m.day_index() == self.day_index() - i,
            decreases w - i,
        {
            m = m.prev_day();
            i = i + 1;
        }
        proof {
            let q = self.day_index() / 7;
            assert(m.day_index() == 7 * q);
            assert(7 * q == q * 7) by (nonlinear_arith);
            vstd::arithmetic::div_mod::lemma_mod_multiples_basic(q, 7);
        }
        m
    }
}

} // verus!
