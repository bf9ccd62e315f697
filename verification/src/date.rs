use vstd::prelude::*;
use vstd::arithmetic::div_mod::{
    lemma_fundamental_div_mod, lemma_fundamental_div_mod_converse_div,
    lemma_fundamental_div_mod_converse_mod, lemma_mod_bound, lemma_mod_multiples_vanish,
};

verus! {

// Calendar dates of the proleptic Gregorian calendar.
//
// A date is a plain year/month/day triple.  Its mathematical model is the
// day number: the count of days since January 1 of year 1, which carries the
// ordering, the weekday and the distance between dates.  The representable
// year range matches the packed date type of the chrono crate, so values
// convert losslessly at the crate boundary.

/// First representable year.
pub const MIN_YEAR: i32 = -262143;

/// Last representable year.
pub const MAX_YEAR: i32 = 262142;

/// A calendar date.
#[derive(Clone, Copy, Debug, PartialEq, Eq, Structural)]
pub struct Date {
    pub year: i32,
    pub month: u8,
    pub day: u8,
}

/// Gregorian leap year rule.
pub open spec fn is_leap(y: int) -> bool {
    y % 4 == 0 && (y % 100 != 0 || y % 400 == 0)
}

/// Length of month `m` of year `y`.
pub open spec fn days_in_month(y: int, m: int) -> int {
    if m == 2 {
        if is_leap(y) {
            29
        } else {
            28
        }
    } else if m == 4 || m == 6 || m == 9 || m == 11 {
        30
    } else {
        31
    }
}

/// Days of year `y` that lie before month `m`.
pub open spec fn days_before_month(y: int, m: int) -> int {
    let base: int = if m == 1 {
        0
    } else if m == 2 {
        31
    } else if m == 3 {
        59
    } else if m == 4 {
        90
    } else if m == 5 {
        120
    } else if m == 6 {
        151
    } else if m == 7 {
        181
    } else if m == 8 {
        212
    } else if m == 9 {
        243
    } else if m == 10 {
        273
    } else if m == 11 {
        304
    } else {
        334
    };
    base + if m > 2 && is_leap(y) {
        1int
    } else {
        0int
    }
}

/// Days that lie before January 1 of year `y`, counted from January 1 of
/// year 1.  Division is Euclidean, so the formula extends to years before 1.
pub open spec fn days_before_year(y: int) -> int {
    365 * (y - 1) + (y - 1) / 4 - (y - 1) / 100 + (y - 1) / 400
}

impl Date {
    /// A date is well formed when it denotes a day of the representable
    /// range of the calendar.
    pub open spec fn wf(self) -> bool {
        &&& MIN_YEAR <= self.year <= MAX_YEAR
        &&& 1 <= self.month <= 12
        &&& 1 <= self.day <= days_in_month(self.year as int, self.month as int)
    }

    /// Days since January 1 of year 1 (that day itself has number 0).
    pub open spec fn day_number(self) -> int {
        days_before_year(self.year as int) + days_before_month(
            self.year as int,
            self.month as int,
        ) + self.day - 1
    }

    /// Weekday of the date: 0 is Monday through 6 is Sunday.
    pub open spec fn weekday_index(self) -> int {
        self.day_number() % 7
    }
}

/// The first representable date.
pub open spec fn min_date() -> Date {
    Date { year: MIN_YEAR, month: 1, day: 1 }
}

/// The last representable date.
pub open spec fn max_date() -> Date {
    Date { year: MAX_YEAR, month: 12, day: 31 }
}

/// A date built from year, month and day, when they denote a real day.
pub open spec fn date_from_ymd(y: int, m: int, d: int) -> Option<Date> {
    if MIN_YEAR <= y <= MAX_YEAR && 1 <= m <= 12 && 1 <= d <= days_in_month(y, m) {
        Some(Date { year: y as i32, month: m as u8, day: d as u8 })
    } else {
        None
    }
}

/// Executable leap year test.
pub fn is_leap_exec(y: i32) -> (r: bool)
    requires
        MIN_YEAR <= y <= MAX_YEAR,
    ensures
        r == is_leap(y as int),
{
    let ys: u64 = ((y as i64) + 400000) as u64;
    proof {
        lemma_mod_multiples_vanish(100000, y as int, 4);
        lemma_mod_multiples_vanish(4000, y as int, 100);
        lemma_mod_multiples_vanish(1000, y as int, 400);
    }
    ys % 4 == 0 && (ys % 100 != 0 || ys % 400 == 0)
}

/// Executable month length.
pub fn days_in_month_exec(y: i32, m: u8) -> (r: u8)
    requires
        MIN_YEAR <= y <= MAX_YEAR,
        1 <= m <= 12,
    ensures
        r as int == days_in_month(y as int, m as int),
{
    if m == 2 {
        if is_leap_exec(y) {
            29
        } else {
            28
        }
    } else if m == 4 || m == 6 || m == 9 || m == 11 {
        30
    } else {
        31
    }
}

/// Executable days-before-month.
fn days_before_month_exec(y: i32, m: u8) -> (r: u16)
    requires
        MIN_YEAR <= y <= MAX_YEAR,
        1 <= m <= 12,
    ensures
        r as int == days_before_month(y as int, m as int),
{
    let base: u16 = if m == 1 {
        0
    } else if m == 2 {
        31
    } else if m == 3 {
        59
    } else if m == 4 {
        90
    } else if m == 5 {
        120
    } else if m == 6 {
        151
    } else if m == 7 {
        181
    } else if m == 8 {
        212
    } else if m == 9 {
        243
    } else if m == 10 {
        273
    } else if m == 11 {
        304
    } else {
        334
    };
    if m > 2 && is_leap_exec(y) {
        base + 1
    } else {
        base
    }
}

/// Executable date construction; the day may come from a parsed number of
/// any size.
pub fn make_date(year: i32, month: u8, day: u64) -> (r: Option<Date>)
    ensures
        r == date_from_ymd(year as int, month as int, day as int),
{
    if MIN_YEAR <= year && year <= MAX_YEAR && 1 <= month && month <= 12 {
        let dim = days_in_month_exec(year, month);
        if 1 <= day && day <= dim as u64 {
            Some(Date { year, month, day: day as u8 })
        } else {
            None
        }
    } else {
        None
    }
}

/// Executable day number.
pub fn day_number_exec(d: &Date) -> (r: i64)
    requires
        d.wf(),
    ensures
        r as int == d.day_number(),
        -95_800_000 <= r <= 95_900_000,
{
    let ys: u64 = ((d.year as i64) - 1 + 400000) as u64;
    let dby_shifted: u64 = 365 * ys + ys / 4 - ys / 100 + ys / 400;
    proof {
        let ym1 = d.year as int - 1;
        lemma_fundamental_div_mod(ym1, 4);
        lemma_mod_bound(ym1, 4);
        lemma_fundamental_div_mod_converse_div(ym1 + 400000, 4, ym1 / 4 + 100000, ym1 % 4);
        lemma_fundamental_div_mod(ym1, 100);
        lemma_mod_bound(ym1, 100);
        lemma_fundamental_div_mod_converse_div(ym1 + 400000, 100, ym1 / 100 + 4000, ym1 % 100);
        lemma_fundamental_div_mod(ym1, 400);
        lemma_mod_bound(ym1, 400);
        lemma_fundamental_div_mod_converse_div(ym1 + 400000, 400, ym1 / 400 + 1000, ym1 % 400);
    }
    let dbm = days_before_month_exec(d.year, d.month);
    (dby_shifted as i64) - 146_097_000 + (dbm as i64) + (d.day as i64) - 1
}

/// Executable weekday: 0 is Monday through 6 is Sunday.
pub fn weekday_of(d: &Date) -> (r: u8)
    requires
        d.wf(),
    ensures
        r < 7,
        r as int == d.weekday_index(),
{
    let dn = day_number_exec(d);
    let shifted: u64 = (dn + 98_000_000) as u64;
    proof {
        lemma_mod_multiples_vanish(14_000_000, d.day_number(), 7);
        lemma_mod_bound(d.day_number(), 7);
    }
    (shifted % 7) as u8
}

// ---------- the successor structure of the calendar ----------

/// The day after `d` in the calendar, while it stays representable.
pub open spec fn succ_date(d: Date) -> Option<Date> {
    if d.day < days_in_month(d.year as int, d.month as int) {
        Some(Date { year: d.year, month: d.month, day: (d.day + 1) as u8 })
    } else if d.month < 12 {
        Some(Date { year: d.year, month: (d.month + 1) as u8, day: 1 })
    } else if d.year < MAX_YEAR {
        Some(Date { year: (d.year + 1) as i32, month: 1, day: 1 })
    } else {
        None
    }
}

/// The day before `d` in the calendar, while it stays representable.
pub open spec fn pred_date(d: Date) -> Option<Date> {
    if d.day > 1 {
        Some(Date { year: d.year, month: d.month, day: (d.day - 1) as u8 })
    } else if d.month > 1 {
        Some(
            Date {
                year: d.year,
                month: (d.month - 1) as u8,
                day: days_in_month(d.year as int, d.month - 1) as u8,
            },
        )
    } else if d.year > MIN_YEAR {
        Some(Date { year: (d.year - 1) as i32, month: 12, day: 31 })
    } else {
        None
    }
}

/// Dividing by a positive constant steps down by one exactly at multiples.
proof fn lemma_div_step(y: int, n: int)
    requires
        n > 0,
    ensures
        y / n - (y - 1) / n == if y % n == 0 {
            1int
        } else {
            0int
        },
{
    lemma_fundamental_div_mod(y, n);
    lemma_mod_bound(y, n);
    let q = y / n;
    let r = y % n;
    if r == 0 {
        assert(y - 1 == (q - 1) * n + (n - 1)) by (nonlinear_arith)
            requires
                y == n * q + r,
                r == 0,
        ;
        lemma_fundamental_div_mod_converse_div(y - 1, n, q - 1, n - 1);
    } else {
        assert(y - 1 == q * n + (r - 1)) by (nonlinear_arith)
            requires
                y == n * q + r,
        ;
        lemma_fundamental_div_mod_converse_div(y - 1, n, q, r - 1);
    }
}

proof fn lemma_multiple_of_100_is_multiple_of_4(y: int)
    requires
        y % 100 == 0,
    ensures
        y % 4 == 0,
{
    lemma_fundamental_div_mod(y, 100);
    lemma_fundamental_div_mod_converse_mod(y, 4, 25 * (y / 100), 0);
}

proof fn lemma_multiple_of_400_is_multiple_of_100(y: int)
    requires
        y % 400 == 0,
    ensures
        y % 100 == 0,
        y % 4 == 0,
{
    lemma_fundamental_div_mod(y, 400);
    lemma_fundamental_div_mod_converse_mod(y, 100, 4 * (y / 400), 0);
    lemma_fundamental_div_mod_converse_mod(y, 4, 100 * (y / 400), 0);
}

/// A year holds 365 days, plus one in a leap year.
proof fn lemma_days_before_year_step(y: int)
    ensures
        days_before_year(y + 1) - days_before_year(y) == 365 + if is_leap(y) {
            1int
        } else {
            0int
        },
{
    lemma_div_step(y, 4);
    lemma_div_step(y, 100);
    lemma_div_step(y, 400);
    if y % 100 == 0 {
        lemma_multiple_of_100_is_multiple_of_4(y);
    }
    if y % 400 == 0 {
        lemma_multiple_of_400_is_multiple_of_100(y);
    }
}

/// The calendar successor carries day number plus one.
pub proof fn lemma_day_number_succ(d: Date)
    requires
        d.wf(),
        succ_date(d) is Some,
    ensures
        succ_date(d)->Some_0.wf(),
        succ_date(d)->Some_0.day_number() == d.day_number() + 1,
{
    let s = succ_date(d)->Some_0;
    if d.day < days_in_month(d.year as int, d.month as int) {
    } else if d.month < 12 {
        assert(days_before_month(d.year as int, d.month + 1) == days_before_month(
            d.year as int,
            d.month as int,
        ) + days_in_month(d.year as int, d.month as int));
    } else {
        lemma_days_before_year_step(d.year as int);
    }
}

/// The calendar predecessor is exactly the inverse of the successor.
pub proof fn lemma_pred_succ(d: Date)
    requires
        d.wf(),
        pred_date(d) is Some,
    ensures
        pred_date(d)->Some_0.wf(),
        succ_date(pred_date(d)->Some_0) == Some(d),
        pred_date(d)->Some_0.day_number() == d.day_number() - 1,
{
    let p = pred_date(d)->Some_0;
    lemma_day_number_succ(p);
}

/// The next calendar day, or nothing at the end of the representable range.
pub fn next_day_opt(d: &Date) -> (r: Option<Date>)
    requires
        d.wf(),
    ensures
        match r {
            Some(n) => n.wf() && n.day_number() == d.day_number() + 1 && succ_date(*d) == Some(n),
            None => *d == max_date(),
        },
{
    let dim = days_in_month_exec(d.year, d.month);
    let r = if d.day < dim {
        Some(Date { year: d.year, month: d.month, day: d.day + 1 })
    } else if d.month < 12 {
        Some(Date { year: d.year, month: d.month + 1, day: 1 })
    } else if d.year < MAX_YEAR {
        Some(Date { year: d.year + 1, month: 1, day: 1 })
    } else {
        None
    };
    proof {
        if succ_date(*d) is Some {
            lemma_day_number_succ(*d);
        }
    }
    r
}

/// Days before year grows with the year.
proof fn lemma_dby_monotone(a: int, b: int)
    requires
        a <= b,
    ensures
        days_before_year(a) <= days_before_year(b),
    decreases b - a,
{
    if a < b {
        lemma_days_before_year_step(b - 1);
        lemma_dby_monotone(a, b - 1);
    }
}

/// Every representable date lies between the first and the last one.
pub proof fn lemma_day_number_bounds(d: Date)
    requires
        d.wf(),
    ensures
        min_date().day_number() <= d.day_number() <= max_date().day_number(),
{
    let y = d.year as int;
    lemma_dby_monotone(MIN_YEAR as int, y);
    if y == MAX_YEAR as int {
        assert(!is_leap(y));
    } else {
        lemma_days_before_year_step(y);
        lemma_dby_monotone(y + 1, MAX_YEAR as int);
        assert(!is_leap(MAX_YEAR as int));
    }
}

/// Moves a date by a signed count of days; `true` on success, and the date
/// is left unchanged when the target would leave the representable range.
pub fn add_or_subtract_days(datum: &mut Date, days: i64) -> (ok: bool)
    requires
        old(datum).wf(),
    ensures
        final(datum).wf(),
        ok ==> final(datum).day_number() == old(datum).day_number() + days,
        !ok ==> *final(datum) == *old(datum),
        ok == (min_date().day_number() <= old(datum).day_number() + days
            <= max_date().day_number()),
{
    proof {
        lemma_day_number_bounds(*old(datum));
    }
    if days >= 0 {
        let mut cur: Date = *datum;
        let mut steps: i64 = 0;
        while steps < days
            invariant
                0 <= steps <= days,
                cur.wf(),
                cur.day_number() == old(datum).day_number() + steps,
                *datum == *old(datum),
                old(datum).wf(),
            decreases days - steps,
        {
            match next_day_opt(&cur) {
                Some(n) => {
                    cur = n;
                    steps = steps + 1;
                },
                None => {
                    return false;
                },
            }
        }
        *datum = cur;
        proof {
            lemma_day_number_bounds(cur);
        }
        true
    } else {
        let mut cur: Date = *datum;
        let mut steps: i64 = 0;
        while steps > days
            invariant
                days <= steps <= 0,
                cur.wf(),
                cur.day_number() == old(datum).day_number() + steps,
                *datum == *old(datum),
                old(datum).wf(),
            decreases steps - days,
        {
            match prev_day_opt(&cur) {
                Some(p) => {
                    cur = p;
                    steps = steps - 1;
                },
                None => {
                    return false;
                },
            }
        }
        *datum = cur;
        proof {
            lemma_day_number_bounds(cur);
        }
        true
    }
}

/// The previous calendar day, or nothing at the start of the range.
pub fn prev_day_opt(d: &Date) -> (r: Option<Date>)
    requires
        d.wf(),
    ensures
        match r {
            Some(p) => p.wf() && p.day_number() == d.day_number() - 1 && pred_date(*d) == Some(p),
            None => *d == min_date(),
        },
{
    let r = if d.day > 1 {
        Some(Date { year: d.year, month: d.month, day: d.day - 1 })
    } else if d.month > 1 {
        let dim = days_in_month_exec(d.year, d.month - 1);
        Some(Date { year: d.year, month: d.month - 1, day: dim })
    } else if d.year > MIN_YEAR {
        Some(Date { year: d.year - 1, month: 12, day: 31 })
    } else {
        None
    };
    proof {
        if pred_date(*d) is Some {
            lemma_pred_succ(*d);
        }
    }
    r
}

} // verus!
