//! Proleptic Gregorian calendar arithmetic and the translation between the
//! calendar database's native timestamp encoding and calendar date-times.
//!
//! The database stores timestamps as seconds relative to an epoch that lies
//! 31 calendar years after the standard Unix epoch.  Decoding therefore adds
//! 31 years (normalising Feb 29 into Mar 1 when the target year is not a
//! leap year, as the source application's storage layer does), and the start
//! field is additionally shifted forward by one day relative to the end
//! field.  That asymmetry is part of the storage format and is reproduced
//! here on purpose.

use vstd::prelude::*;

verus! {

use vstd::arithmetic::div_mod::{
    lemma_fundamental_div_mod,
    lemma_fundamental_div_mod_converse,
    lemma_mod_bound,
};

/// Smallest day number (days relative to 1970-01-01) this module handles:
/// 0000-01-01.
pub const DAYS_MIN: i64 = -719528;

/// Largest day number this module handles: 9999-12-31.
pub const DAYS_MAX: i64 = 2932896;

/// Smallest native-decodable second count: 0000-01-01 00:00:00 as Unix seconds.
pub const SECS_MIN: i64 = -62167219200;

/// Largest Unix second count whose date, shifted 31 years forward, still has a
/// four-digit year: the last second of 9968-12-31.
pub const SECS_MAX: i64 = 252424079999;

/// A calendar date in the proleptic Gregorian calendar, year 0 through 9999.
#[derive(Clone, Copy, Debug, PartialEq, Eq, Structural)]
pub struct Date {
    pub year: i64,
    pub month: u8,
    pub day: u8,
}

/// A calendar date with a time of day.
#[derive(Clone, Copy, Debug, PartialEq, Eq, Structural)]
pub struct DateTime {
    pub year: i64,
    pub month: u8,
    pub day: u8,
    pub hour: u8,
    pub minute: u8,
    pub second: u8,
}

pub open spec fn is_leap_year(y: int) -> bool {
    y % 4 == 0 && (y % 100 != 0 || y % 400 == 0)
}

pub open spec fn days_in_month(y: int, m: int) -> int {
    if m == 2 {
        if is_leap_year(y) {
            29
        } else {
            28
        }
    } else if m == 4 || m == 6 || m == 9 || m == 11 {
        30
    } else {
        31
    }
}

/// Days in year `y` that precede the first day of month `m`.
pub open spec fn days_before_month(y: int, m: int) -> int
    decreases m,
{
    if m <= 1 {
        0
    } else {
        days_before_month(y, m - 1) + days_in_month(y, m - 1)
    }
}

/// Days from 0000-01-01 to the first day of year `y` (for `y >= 0`).
pub open spec fn days_before_year(y: int) -> int {
    365 * y + (y + 3) / 4 - (y + 99) / 100 + (y + 399) / 400
}

/// Day number of the date `(y, m, d)` relative to 1970-01-01.
pub open spec fn day_number(y: int, m: int, d: int) -> int {
    days_before_year(y) + days_before_month(y, m) + d - 1 - 719528
}

impl Date {
    pub open spec fn wf(self) -> bool {
        0 <= self.year <= 9999 && 1 <= self.month <= 12 && 1 <= self.day <= days_in_month(
            self.year as int,
            self.month as int,
        )
    }

    pub open spec fn num(self) -> int {
        day_number(self.year as int, self.month as int, self.day as int)
    }

    /// Strict calendar order; for well-formed dates this is chronological
    /// order.
    pub open spec fn lt(self, other: Date) -> bool {
        self.year < other.year || (self.year == other.year && (self.month < other.month || (
        self.month == other.month && self.day < other.day)))
    }

    pub open spec fn le(self, other: Date) -> bool {
        self.lt(other) || self == other
    }
}

impl DateTime {
    pub open spec fn wf(self) -> bool {
        0 <= self.year <= 9999 && 1 <= self.month <= 12 && 1 <= self.day <= days_in_month(
            self.year as int,
            self.month as int,
        ) && self.hour < 24 && self.minute < 60 && self.second < 60
    }

    pub open spec fn date(self) -> Date {
        Date { year: self.year, month: self.month, day: self.day }
    }

    /// The date-time as a count of seconds relative to 1970-01-01 00:00:00.
    pub open spec fn secs(self) -> int {
        self.date().num() * 86400 + self.hour * 3600 + self.minute * 60 + self.second
    }

    /// Strict lexicographic order on (date, time of day); chronological for
    /// well-formed values.
    pub open spec fn lt(self, other: DateTime) -> bool {
        self.date().lt(other.date()) || (self.date() == other.date() && (self.hour < other.hour
            || (self.hour == other.hour && (self.minute < other.minute || (self.minute
            == other.minute && self.second < other.second)))))
    }

    pub open spec fn le(self, other: DateTime) -> bool {
        self.lt(other) || self == other
    }
}

/// The date with the given day number, if one exists in year 0 through 9999.
pub open spec fn date_of_num(z: int) -> Date {
    choose|d: Date| d.wf() && d.num() == z
}

/// For `k` of {4, 100, 400}: stepping `y` to `y + 1` raises the rounded-up
/// quotient `(y + k - 1 + 1) / k` exactly when `k` divides `y`.
proof fn lemma_count_step(y: int, k: int)
    requires
        y >= 0,
        k >= 1,
    ensures
        (y + k) / k == (y + k - 1) / k + if y % k == 0 {
            1int
        } else {
            0int
        },
{
    let q = y / k;
    let r = y % k;
    lemma_fundamental_div_mod(y, k);
    lemma_mod_bound(y, k);
    assert((q + 1) * k == k * q + k) by (nonlinear_arith);
    assert(q * k == k * q) by (nonlinear_arith);
    lemma_fundamental_div_mod_converse(y + k, k, q + 1, r);
    if r == 0 {
        lemma_fundamental_div_mod_converse(y + k - 1, k, q, k - 1);
    } else {
        lemma_fundamental_div_mod_converse(y + k - 1, k, q + 1, r - 1);
    }
}

/// Divisibility by 400 implies divisibility by 100, which implies
/// divisibility by 4.
proof fn lemma_divisibility_chain(y: int)
    requires
        y >= 0,
    ensures
        y % 400 == 0 ==> y % 100 == 0,
        y % 100 == 0 ==> y % 4 == 0,
{
    if y % 400 == 0 {
        lemma_fundamental_div_mod(y, 400);
        lemma_fundamental_div_mod_converse(y, 100, 4 * (y / 400), 0);
    }
    if y % 100 == 0 {
        lemma_fundamental_div_mod(y, 100);
        lemma_fundamental_div_mod_converse(y, 4, 25 * (y / 100), 0);
    }
}

/// Year `y` contributes 366 days when it is a leap year and 365 otherwise.
pub proof fn lemma_days_before_year_step(y: int)
    requires
        y >= 0,
    ensures
        days_before_year(y + 1) == days_before_year(y) + if is_leap_year(y) {
            366int
        } else {
            365int
        },
{
    lemma_count_step(y, 4);
    lemma_count_step(y, 100);
    lemma_count_step(y, 400);
    lemma_divisibility_chain(y);
}

pub proof fn lemma_days_before_year_monotone(a: int, b: int)
    requires
        0 <= a <= b,
    ensures
        days_before_year(a) + 365 * (b - a) <= days_before_year(b),
    decreases b - a,
{
    if a < b {
        lemma_days_before_year_monotone(a, b - 1);
        lemma_days_before_year_step(b - 1);
    }
}

/// The whole year is 365 or 366 days, matching the year step.
pub proof fn lemma_days_before_month_full(y: int)
    ensures
        days_before_month(y, 13) == if is_leap_year(y) {
            366int
        } else {
            365int
        },
{
    reveal_with_fuel(days_before_month, 13);
}

pub proof fn lemma_days_before_month_monotone(y: int, m1: int, m2: int)
    requires
        1 <= m1 <= m2 <= 13,
    ensures
        days_before_month(y, m1) <= days_before_month(y, m2),
        m1 < m2 ==> days_before_month(y, m1) + days_in_month(y, m1) <= days_before_month(y, m2),
    decreases m2 - m1,
{
    if m1 < m2 {
        lemma_days_before_month_monotone(y, m1 + 1, m2);
    }
}

/// Calendar order coincides with day-number order on well-formed dates.
pub proof fn lemma_day_number_increases(a: Date, b: Date)
    requires
        a.wf(),
        b.wf(),
        a.lt(b),
    ensures
        a.num() < b.num(),
{
    let ya = a.year as int;
    let yb = b.year as int;
    let ma = a.month as int;
    let mb = b.month as int;
    if ya < yb {
        lemma_days_before_month_monotone(ya, ma, 13);
        lemma_days_before_month_full(ya);
        lemma_days_before_year_step(ya);
        lemma_days_before_year_monotone(ya + 1, yb);
        lemma_days_before_month_monotone(yb, 1, mb);
    } else if ma < mb {
        lemma_days_before_month_monotone(ya, ma, mb);
    }
}

/// Two well-formed dates with the same day number are equal.
pub proof fn lemma_day_number_injective(a: Date, b: Date)
    requires
        a.wf(),
        b.wf(),
        a.num() == b.num(),
    ensures
        a == b,
{
    if a.lt(b) {
        lemma_day_number_increases(a, b);
    } else if b.lt(a) {
        lemma_day_number_increases(b, a);
    }
}

/// Every day number in range is taken by some well-formed date.
pub proof fn lemma_date_exists(z: int)
    requires
        DAYS_MIN <= z <= DAYS_MAX,
    ensures
        exists|d: Date| d.wf() && d.num() == z,
    decreases z - DAYS_MIN,
{
    if z == DAYS_MIN {
        let d = Date { year: 0, month: 1, day: 1 };
        assert(days_before_month(0, 1) == 0);
        assert(d.wf() && d.num() == z);
    } else {
        lemma_date_exists(z - 1);
        let p = choose|p: Date| p.wf() && p.num() == z - 1;
        let y = p.year as int;
        let m = p.month as int;
        if (p.day as int) < days_in_month(y, m) {
            let d = Date { year: p.year, month: p.month, day: (p.day + 1) as u8 };
            assert(d.wf() && d.num() == z);
        } else if m < 12 {
            let d = Date { year: p.year, month: (p.month + 1) as u8, day: 1 };
            assert(days_before_month(y, m + 1) == days_before_month(y, m) + days_in_month(y, m));
            assert(days_in_month(y, m + 1) >= 28);
            assert(d.wf() && d.num() == z);
        } else {
            // p is Dec 31; the next day is Jan 1 of the following year.
            lemma_days_before_month_full(y);
            lemma_days_before_year_step(y);
            if y == 9999 {
                // Then z - 1 was the largest day number, contradicting z <= DAYS_MAX.
                lemma_days_before_year_monotone(0, 9999);
                assert(p.num() == days_before_year(9999) + 334 + 31 - 1 - 719528);
                assert(false);
            }
            let d = Date { year: (p.year + 1) as i64, month: 1, day: 1 };
            assert(days_before_month(y + 1, 1) == 0);
            assert(days_before_month(y, 13) == days_before_month(y, 12) + 31);
            assert(d.num() == days_before_year(y + 1) - 719528);
            assert(d.wf() && d.num() == z);
        }
    }
}

/// `date_of_num` is the inverse of `num` on the supported range.
pub proof fn lemma_date_of_num(z: int)
    requires
        DAYS_MIN <= z <= DAYS_MAX,
    ensures
        date_of_num(z).wf(),
        date_of_num(z).num() == z,
{
    lemma_date_exists(z);
}

/// A well-formed date's day number lies between its year's first day and the
/// next year's first day.
pub proof fn lemma_day_number_bounds(d: Date)
    requires
        d.wf(),
    ensures
        days_before_year(d.year as int) - 719528 <= d.num(),
        d.num() < days_before_year(d.year as int + 1) - 719528,
{
    let y = d.year as int;
    let m = d.month as int;
    lemma_days_before_month_monotone(y, 1, m);
    lemma_days_before_month_monotone(y, m, 13);
    lemma_days_before_month_full(y);
    lemma_days_before_year_step(y);
}

/// Every well-formed date's day number lies in the supported range.
pub proof fn lemma_num_in_range(d: Date)
    requires
        d.wf(),
    ensures
        DAYS_MIN <= d.num() <= DAYS_MAX,
{
    lemma_day_number_bounds(d);
    lemma_days_before_year_monotone(0, d.year as int);
    lemma_days_before_year_monotone(d.year as int + 1, 10000);
    assert(days_before_year(10000int) == 3652425);
}

/// A date in a year past `y` has a day number at least `days_before_year(y)`.
proof fn lemma_year_from_day_number(d: Date, y: int)
    requires
        d.wf(),
        d.year >= y >= 0,
    ensures
        d.num() >= days_before_year(y) - 719528,
{
    lemma_days_before_year_monotone(y, d.year as int);
    lemma_days_before_month_monotone(d.year as int, 1, d.month as int);
}

pub fn leap_year(y: i64) -> (b: bool)
    requires
        y >= 0,
    ensures
        b == is_leap_year(y as int),
{
    let yu = y as u64;
    yu % 4 == 0 && (yu % 100 != 0 || yu % 400 == 0)
}

pub fn month_days(y: i64, m: u8) -> (r: u8)
    requires
        y >= 0,
    ensures
        r == days_in_month(y as int, m as int),
{
    if m == 2 {
        if leap_year(y) {
            29
        } else {
            28
        }
    } else if m == 4 || m == 6 || m == 9 || m == 11 {
        30
    } else {
        31
    }
}

pub fn month_offset(y: i64, m: u8) -> (r: u16)
    requires
        y >= 0,
        1 <= m <= 13,
    ensures
        r == days_before_month(y as int, m as int),
{
    proof {
        reveal_with_fuel(days_before_month, 14);
    }
    let lp: u16 = if leap_year(y) {
        1
    } else {
        0
    };
    match m {
        1 => 0,
        2 => 31,
        3 => 59 + lp,
        4 => 90 + lp,
        5 => 120 + lp,
        6 => 151 + lp,
        7 => 181 + lp,
        8 => 212 + lp,
        9 => 243 + lp,
        10 => 273 + lp,
        11 => 304 + lp,
        12 => 334 + lp,
        _ => 365 + lp,
    }
}

pub fn year_offset(y: i64) -> (r: u64)
    requires
        0 <= y <= 10000,
    ensures
        r == days_before_year(y as int),
{
    let yu = y as u64;
    let sub = (yu + 99) / 100;
    proof {
        lemma_fundamental_div_mod(yu as int + 99, 100);
        lemma_mod_bound(yu as int + 99, 100);
    }
    365 * yu + (yu + 3) / 4 + (yu + 399) / 400 - sub
}

/// The day number of a well-formed date, relative to 1970-01-01.
pub fn date_num(d: &Date) -> (n: i64)
    requires
        d.wf(),
    ensures
        n == d.num(),
        DAYS_MIN <= n <= DAYS_MAX,
{
    let base = year_offset(d.year);
    let off = month_offset(d.year, d.month);
    proof {
        lemma_days_before_year_monotone(0, d.year as int);
        lemma_days_before_year_monotone(d.year as int, 10000);
        lemma_days_before_month_monotone(d.year as int, 1, d.month as int);
        lemma_days_before_month_monotone(d.year as int, d.month as int, 13);
        lemma_days_before_month_full(d.year as int);
        assert(days_before_year(10000int) == 3652425);
    }
    (base + off as u64 + d.day as u64 - 1) as i64 - 719528
}

/// The unique well-formed date with the given day number.
pub fn date_from_num(z: i64) -> (d: Date)
    requires
        DAYS_MIN <= z <= DAYS_MAX,
    ensures
        d.wf(),
        d.num() == z,
        d == date_of_num(z as int),
{
    proof {
        assert(days_before_year(10000int) == 3652425);
    }
    let w: u64 = (z + 719528) as u64;
    let mut y: i64 = 0;
    loop
        invariant
            0 <= y <= 9999,
            days_before_year(y as int) <= w as int,
            w == z + 719528,
            DAYS_MIN <= z <= DAYS_MAX,
        ensures
            0 <= y <= 9999,
            days_before_year(y as int) <= w as int,
            (w as int) < days_before_year(y as int + 1),
        decreases 9999 - y,
    {
        if y == 9999 {
            proof {
                assert(days_before_year(10000int) == 3652425);
            }
            break ;
        }
        let nb = year_offset(y + 1);
        if nb > w {
            break ;
        }
        y = y + 1;
    }
    let doy: u64 = w - year_offset(y);
    proof {
        lemma_days_before_year_step(y as int);
        lemma_days_before_month_full(y as int);
    }
    let mut m: u8 = 1;
    loop
        invariant
            1 <= m <= 12,
            0 <= y <= 9999,
            days_before_month(y as int, m as int) <= doy as int,
            (doy as int) < days_before_month(y as int, 13),
        ensures
            1 <= m <= 12,
            days_before_month(y as int, m as int) <= doy as int,
            (doy as int) < days_before_month(y as int, m as int) + days_in_month(
                y as int,
                m as int,
            ),
        decreases 12 - m,
    {
        if m == 12 {
            proof {
                assert(days_before_month(y as int, 13) == days_before_month(y as int, 12)
                    + days_in_month(y as int, 12));
            }
            break ;
        }
        let nb = month_offset(y, m + 1);
        if nb as u64 > doy {
            proof {
                assert(days_before_month(y as int, m as int + 1) == days_before_month(
                    y as int,
                    m as int,
                ) + days_in_month(y as int, m as int));
            }
            break ;
        }
        m = m + 1;
    }
    let day: u8 = (doy - month_offset(y, m) as u64 + 1) as u8;
    let d = Date { year: y, month: m, day };
    proof {
        lemma_date_of_num(z as int);
        lemma_day_number_injective(d, date_of_num(z as int));
    }
    d
}

/// The date `n` days after `d` (or before, for negative `n`).
pub fn date_add_days(d: &Date, n: i64) -> (r: Date)
    requires
        d.wf(),
        DAYS_MIN <= d.num() + n <= DAYS_MAX,
    ensures
        r.wf(),
        r.num() == d.num() + n,
        r == date_of_num(d.num() + n),
{
    let z = date_num(d);
    date_from_num(z + n)
}

/// Calendar-order comparison of two dates.
pub fn date_le(a: &Date, b: &Date) -> (r: bool)
    ensures
        r == a.le(*b),
{
    if a.year != b.year {
        a.year < b.year
    } else if a.month != b.month {
        a.month < b.month
    } else {
        a.day <= b.day
    }
}

/// Chronological comparison of two date-times (lexicographic on the fields).
pub fn datetime_le(a: &DateTime, b: &DateTime) -> (r: bool)
    ensures
        r == a.le(*b),
{
    if a.year != b.year {
        a.year < b.year
    } else if a.month != b.month {
        a.month < b.month
    } else if a.day != b.day {
        a.day < b.day
    } else if a.hour != b.hour {
        a.hour < b.hour
    } else if a.minute != b.minute {
        a.minute < b.minute
    } else {
        a.second <= b.second
    }
}

/// Adding 31 calendar years, normalising Feb 29 into Mar 1 when the target
/// year is not a leap year (the storage layer's year-shift rule).
pub open spec fn shift_31_years(d: Date) -> Date {
    if d.month == 2 && d.day == 29 && !is_leap_year(d.year + 31) {
        Date { year: (d.year + 31) as i64, month: 3, day: 1 }
    } else {
        Date { year: (d.year + 31) as i64, month: d.month, day: d.day }
    }
}

/// The date-time that the given Unix second count denotes.
pub open spec fn dt_of_secs(t: int) -> DateTime {
    let d = date_of_num(t / 86400);
    let sod = t % 86400;
    DateTime {
        year: d.year,
        month: d.month,
        day: d.day,
        hour: (sod / 3600) as u8,
        minute: ((sod % 3600) / 60) as u8,
        second: (sod % 60) as u8,
    }
}

/// Whether a native end timestamp is decodable: its 31-year-shifted date must
/// keep a four-digit year, as in the source application's storage layer.
pub open spec fn native_end_ok(t: int) -> bool {
    SECS_MIN <= t <= SECS_MAX
}

/// Decoding of a native end timestamp: read the seconds against the Unix
/// epoch, then shift the date 31 calendar years forward.
pub open spec fn native_end_dt(t: int) -> DateTime {
    let u = dt_of_secs(t);
    let sd = shift_31_years(u.date());
    DateTime {
        year: sd.year,
        month: sd.month,
        day: sd.day,
        hour: u.hour,
        minute: u.minute,
        second: u.second,
    }
}

/// Whether a native start timestamp is decodable: as for end timestamps, and
/// the extra one-day shift must stay inside the supported range.
pub open spec fn native_start_ok(t: int) -> bool {
    native_end_ok(t) && native_end_dt(t).date().num() + 1 <= DAYS_MAX
}

/// Decoding of a native start timestamp: as for end timestamps, then one more
/// day forward — the storage format's intentional start/end asymmetry.
pub open spec fn native_start_dt(t: int) -> DateTime {
    let e = native_end_dt(t);
    let d2 = date_of_num(e.date().num() + 1);
    DateTime {
        year: d2.year,
        month: d2.month,
        day: d2.day,
        hour: e.hour,
        minute: e.minute,
        second: e.second,
    }
}

/// The date used by the range filter: the 31-year-shifted date of the raw
/// start timestamp, without the one-day display shift.
pub open spec fn window_date(t: int) -> Date {
    native_end_dt(t).date()
}

proof fn lemma_secs_split(t: int)
    requires
        native_end_ok(t),
    ensures
        t == (t / 86400) * 86400 + t % 86400,
        DAYS_MIN <= t / 86400,
        t / 86400 < days_before_year(9969) - 719528,
        0 <= t % 86400 < 86400,
        0 <= (t % 86400) / 3600 < 24,
        0 <= (t % 86400) % 3600 / 60 < 60,
        0 <= (t % 86400) % 60 < 60,
{
    lemma_fundamental_div_mod(t, 86400);
    lemma_mod_bound(t, 86400);
    let z = t / 86400;
    let sod = t % 86400;
    assert(days_before_year(9969) == 3641103);
    assert(86400 * z >= SECS_MIN - 86399);
    assert(86400 * z <= SECS_MAX);
    assert(z >= -719528 && z <= 2921574) by (nonlinear_arith)
        requires
            86400 * z >= -62167219200 - 86399 && 86400 * z <= 252424079999,
    ;
    lemma_fundamental_div_mod(sod, 3600);
    lemma_mod_bound(sod, 3600);
    lemma_fundamental_div_mod(sod % 3600, 60);
    lemma_mod_bound(sod % 3600, 60);
    lemma_mod_bound(sod, 60);
    assert(sod / 3600 < 24 && (sod % 3600) / 60 < 60) by (nonlinear_arith)
        requires
            0 <= sod < 86400 && sod == 3600 * (sod / 3600) + sod % 3600 && 0 <= sod % 3600 < 3600
                && sod % 3600 == 60 * ((sod % 3600) / 60) + (sod % 3600) % 60 && 0 <= (sod % 3600)
                % 60 < 60,
    ;
}

/// The pre-shift date of a decodable native timestamp has year 9968 at most,
/// so the shifted date keeps a four-digit year.
proof fn lemma_pre_shift_year(t: int)
    requires
        native_end_ok(t),
    ensures
        date_of_num(t / 86400).wf(),
        date_of_num(t / 86400).num() == t / 86400,
        date_of_num(t / 86400).year <= 9968,
        native_end_dt(t).wf(),
{
    lemma_secs_split(t);
    let z = t / 86400;
    lemma_date_of_num(z);
    let pre = date_of_num(z);
    if pre.year > 9968 {
        lemma_year_from_day_number(pre, 9969);
    }
    let sd = shift_31_years(pre);
    assert(sd.wf());
}

/// Decode a native end timestamp, or report that it is out of range.
pub fn decode_end_timestamp(t: i64) -> (r: Option<DateTime>)
    ensures
        match r {
            Some(dt) => native_end_ok(t as int) && dt == native_end_dt(t as int) && dt.wf(),
            None => !native_end_ok(t as int),
        },
{
    if t < SECS_MIN || t > SECS_MAX {
        return None;
    }
    proof {
        lemma_secs_split(t as int);
        lemma_pre_shift_year(t as int);
    }
    let w: u64 = (t + 62167219200) as u64;
    let zoff = w / 86400;
    let sod = w % 86400;
    proof {
        lemma_fundamental_div_mod(w as int, 86400);
        lemma_mod_bound(w as int, 86400);
        lemma_fundamental_div_mod_converse(
            t as int,
            86400,
            zoff as int - 719528,
            sod as int,
        );
        assert((zoff as int - 719528) * 86400 == 86400 * (zoff as int) - 719528 * 86400)
            by (nonlinear_arith);
    }
    let z: i64 = zoff as i64 - 719528;
    let pre = date_from_num(z);
    let y2: i64 = pre.year + 31;
    let sd: Date = if pre.month == 2 && pre.day == 29 && !leap_year(y2) {
        Date { year: y2, month: 3, day: 1 }
    } else {
        Date { year: y2, month: pre.month, day: pre.day }
    };
    let hour = (sod / 3600) as u8;
    let minute = ((sod % 3600) / 60) as u8;
    let second = (sod % 60) as u8;
    proof {
        lemma_fundamental_div_mod(sod as int, 60);
        lemma_fundamental_div_mod((sod as int) % 3600, 60);
        lemma_fundamental_div_mod(sod as int, 3600);
        assert(sod as int == (t as int) % 86400);
    }
    Some(DateTime { year: sd.year, month: sd.month, day: sd.day, hour, minute, second })
}

/// Decode a native start timestamp (end decoding plus one day), or report
/// that it is out of range.
pub fn decode_start_timestamp(t: i64) -> (r: Option<DateTime>)
    ensures
        match r {
            Some(dt) => native_start_ok(t as int) && dt == native_start_dt(t as int) && dt.wf(),
            None => !native_start_ok(t as int),
        },
{
    match decode_end_timestamp(t) {
        None => None,
        Some(e) => {
            let ed = Date { year: e.year, month: e.month, day: e.day };
            proof {
                lemma_pre_shift_year(t as int);
            }
            let zn = date_num(&ed);
            if zn >= DAYS_MAX {
                proof {
                    if native_start_ok(t as int) {
                        assert(false);
                    }
                }
                None
            } else {
                let d2 = date_from_num(zn + 1);
                Some(
                    DateTime {
                        year: d2.year,
                        month: d2.month,
                        day: d2.day,
                        hour: e.hour,
                        minute: e.minute,
                        second: e.second,
                    },
                )
            }
        },
    }
}

/// Encoding of a date-time back into a native end timestamp: shift the date
/// 31 calendar years back (normalising Feb 29 as the storage layer does),
/// then count seconds against the Unix epoch.
pub open spec fn native_of_end_dt(dt: DateTime) -> int {
    let y0 = dt.year - 31;
    let d0 = if dt.month == 2 && dt.day == 29 && !is_leap_year(y0) {
        Date { year: y0 as i64, month: 3, day: 1 }
    } else {
        Date { year: y0 as i64, month: dt.month, day: dt.day }
    };
    d0.num() * 86400 + dt.hour * 3600 + dt.minute * 60 + dt.second
}

/// Encode a date-time as a native end timestamp.
pub fn encode_end_timestamp(dt: &DateTime) -> (r: i64)
    requires
        dt.wf(),
        dt.year >= 31,
    ensures
        r == native_of_end_dt(*dt),
{
    let y0: i64 = dt.year - 31;
    let d0: Date = if dt.month == 2 && dt.day == 29 && !leap_year(y0) {
        Date { year: y0, month: 3, day: 1 }
    } else {
        Date { year: y0, month: dt.month, day: dt.day }
    };
    let z = date_num(&d0);
    z * 86400 + dt.hour as i64 * 3600 + dt.minute as i64 * 60 + dt.second as i64
}

/// Round trip for end timestamps: decoding a native end timestamp and
/// encoding the result reproduces the timestamp exactly.  The one family of
/// timestamps this cannot hold for is excluded: those whose pre-shift date is
/// Feb 29, which the year-shift rule normalises into Mar 1.
pub proof fn lemma_end_round_trip(t: int)
    requires
        native_end_ok(t),
        !(date_of_num(t / 86400).month == 2 && date_of_num(t / 86400).day == 29),
    ensures
        native_of_end_dt(native_end_dt(t)) == t,
{
    lemma_secs_split(t);
    lemma_pre_shift_year(t);
    let z = t / 86400;
    let sod = t % 86400;
    let pre = date_of_num(z);
    let e = native_end_dt(t);
    assert(e.date() == shift_31_years(pre));
    assert(e.month == pre.month && e.day == pre.day && e.year == pre.year + 31);
    let d0 = Date { year: (e.year - 31) as i64, month: e.month, day: e.day };
    assert(d0 == pre);
    lemma_fundamental_div_mod(sod, 3600);
    lemma_fundamental_div_mod(sod % 3600, 60);
    assert(e.hour * 3600 + e.minute * 60 + e.second == sod);
    assert(native_of_end_dt(e) == z * 86400 + sod);
    assert(z * 86400 == 86400 * z) by (nonlinear_arith);
}

} // verus!
