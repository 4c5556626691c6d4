//! One calendar entry, decoded from a row of the calendar database.

use vstd::prelude::*;

use chrono::{Datelike, TimeZone, Timelike};

use crate::dates::{days_in_month, datetime_le, DateTime};

verus! {

/// One calendar entry.  String fields that the database row could not supply
/// hold the `"<NA>"` placeholder.
#[derive(Debug, Clone)]
pub struct CalendarItem {
    pub rowid: u32,
    pub calendar: String,
    pub start_date: DateTime,
    pub end_date: DateTime,
    pub summary: String,
    pub description: String,
    pub location: String,
    pub all_day: bool,
}

/// The mathematical value of a `CalendarItem`.
pub ghost struct ItemView {
    pub rowid: u32,
    pub calendar: Seq<char>,
    pub start_date: DateTime,
    pub end_date: DateTime,
    pub summary: Seq<char>,
    pub description: Seq<char>,
    pub location: Seq<char>,
    pub all_day: bool,
}

impl View for CalendarItem {
    type V = ItemView;

    open spec fn view(&self) -> ItemView {
        ItemView {
            rowid: self.rowid,
            calendar: self.calendar@,
            start_date: self.start_date,
            end_date: self.end_date,
            summary: self.summary@,
            description: self.description@,
            location: self.location@,
            all_day: self.all_day,
        }
    }
}

impl ItemView {
    pub open spec fn wf(self) -> bool {
        self.start_date.wf() && self.end_date.wf()
    }
}

/// Range-query order: ascending start date-time, ties broken by the all-day
/// flag, `false` first.
pub open spec fn item_le(a: ItemView, b: ItemView) -> bool {
    a.start_date.lt(b.start_date) || (a.start_date == b.start_date && (!a.all_day || b.all_day))
}

/// Attendee-query order: descending start date-time.
pub open spec fn item_desc_le(a: ItemView, b: ItemView) -> bool {
    b.start_date.le(a.start_date)
}

pub fn item_le_exec(a: &CalendarItem, b: &CalendarItem) -> (r: bool)
    ensures
        r == item_le(a@, b@),
{
    if a.start_date == b.start_date {
        !a.all_day || b.all_day
    } else {
        datetime_le(&a.start_date, &b.start_date)
    }
}

pub fn item_desc_le_exec(a: &CalendarItem, b: &CalendarItem) -> (r: bool)
    ensures
        r == item_desc_le(a@, b@),
{
    datetime_le(&b.start_date, &a.start_date)
}

/// What holds of `l` as the host-local rendering of the stored value `of`:
/// the fields form a valid date and time of day, and the zone offset — which
/// is strictly smaller than one day — moves the year by at most one.
pub open spec fn local_rendering(l: DateTime, of: DateTime) -> bool {
    &&& 1 <= l.month <= 12
    &&& 1 <= l.day <= days_in_month(l.year as int, l.month as int)
    &&& l.hour < 24 && l.minute < 60 && l.second < 60
    &&& of.year - 1 <= l.year <= of.year + 1
}

pub open spec fn digit_char(d: int) -> char {
    if d == 0 {
        '0'
    } else if d == 1 {
        '1'
    } else if d == 2 {
        '2'
    } else if d == 3 {
        '3'
    } else if d == 4 {
        '4'
    } else if d == 5 {
        '5'
    } else if d == 6 {
        '6'
    } else if d == 7 {
        '7'
    } else if d == 8 {
        '8'
    } else {
        '9'
    }
}

/// The decimal digits of a non-negative number, most significant first.
pub open spec fn dec_digits(n: int) -> Seq<char>
    decreases n,
{
    if n < 10 {
        seq![digit_char(n)]
    } else {
        dec_digits(n / 10).push(digit_char(n % 10))
    }
}

/// The decimal digits, left-padded with zeros to at least four places.
pub open spec fn pad4(n: int) -> Seq<char> {
    if n < 10 {
        "000"@ + dec_digits(n)
    } else if n < 100 {
        "00"@ + dec_digits(n)
    } else if n < 1000 {
        "0"@ + dec_digits(n)
    } else {
        dec_digits(n)
    }
}

/// A year as `%Y` renders it: four digits, a sign ahead of negative years.
pub open spec fn year_digits(y: int) -> Seq<char> {
    if y < 0 {
        "-"@ + pad4(-y)
    } else {
        pad4(y)
    }
}

pub open spec fn two_digits(n: int) -> Seq<char> {
    seq![digit_char(n / 10), digit_char(n % 10)]
}

/// The note directory name for a local date-time and a summary:
/// `%Y-%m-%d-%H_%M`, a dash, and the summary.
pub open spec fn dirname_str(l: DateTime, summary: Seq<char>) -> Seq<char> {
    year_digits(l.year as int) + "-"@ + two_digits(l.month as int) + "-"@ + two_digits(
        l.day as int,
    ) + "-"@ + two_digits(l.hour as int) + "_"@ + two_digits(l.minute as int) + "-"@ + summary
}

/// The note file name: the directory name with the `.md` extension.
pub open spec fn notename_str(l: DateTime, summary: Seq<char>) -> Seq<char> {
    dirname_str(l, summary) + ".md"@
}

fn digit_str(d: u64) -> (r: &'static str)
    requires
        d < 10,
    ensures
        r@ == seq![digit_char(d as int)],
{
    proof {
        reveal_strlit("0");
        reveal_strlit("1");
        reveal_strlit("2");
        reveal_strlit("3");
        reveal_strlit("4");
        reveal_strlit("5");
        reveal_strlit("6");
        reveal_strlit("7");
        reveal_strlit("8");
        reveal_strlit("9");
        assert("0"@ =~= seq![digit_char(0)]);
        assert("1"@ =~= seq![digit_char(1)]);
        assert("2"@ =~= seq![digit_char(2)]);
        assert("3"@ =~= seq![digit_char(3)]);
        assert("4"@ =~= seq![digit_char(4)]);
        assert("5"@ =~= seq![digit_char(5)]);
        assert("6"@ =~= seq![digit_char(6)]);
        assert("7"@ =~= seq![digit_char(7)]);
        assert("8"@ =~= seq![digit_char(8)]);
        assert("9"@ =~= seq![digit_char(9)]);
    }
    match d {
        0 => "0",
        1 => "1",
        2 => "2",
        3 => "3",
        4 => "4",
        5 => "5",
        6 => "6",
        7 => "7",
        8 => "8",
        _ => "9",
    }
}

fn push_dec(out: &mut String, n: u64)
    ensures
        final(out)@ == old(out)@ + dec_digits(n as int),
    decreases n,
{
    if n < 10 {
        out.append(digit_str(n));
    } else {
        push_dec(out, n / 10);
        out.append(digit_str(n % 10));
        proof {
            assert(old(out)@ + dec_digits(n as int / 10) + seq![digit_char(n as int % 10)]
                =~= old(out)@ + dec_digits(n as int));
        }
    }
}

fn push_pad4(out: &mut String, n: u64)
    ensures
        final(out)@ == old(out)@ + pad4(n as int),
{
    if n < 10 {
        out.append("000");
    } else if n < 100 {
        out.append("00");
    } else if n < 1000 {
        out.append("0");
    }
    push_dec(out, n);
    proof {
        if n < 1000 {
            assert(final(out)@ =~= old(out)@ + pad4(n as int));
        }
    }
}

fn push_two(out: &mut String, n: u64)
    requires
        n < 100,
    ensures
        final(out)@ == old(out)@ + two_digits(n as int),
{
    out.append(digit_str(n / 10));
    out.append(digit_str(n % 10));
    proof {
        assert(final(out)@ =~= old(out)@ + two_digits(n as int));
    }
}

/// The note directory name for a rendered date-time and a summary.
pub fn note_dirname(l: &DateTime, summary: &String) -> (r: String)
    requires
        l.year > i64::MIN,
        l.month < 100 && l.day < 100 && l.hour < 100 && l.minute < 100,
    ensures
        r@ == dirname_str(*l, summary@),
{
    let mut out = String::new();
    if l.year < 0 {
        out.append("-");
        push_pad4(&mut out, (-l.year) as u64);
    } else {
        push_pad4(&mut out, l.year as u64);
    }
    out.append("-");
    push_two(&mut out, l.month as u64);
    out.append("-");
    push_two(&mut out, l.day as u64);
    out.append("-");
    push_two(&mut out, l.hour as u64);
    out.append("_");
    push_two(&mut out, l.minute as u64);
    out.append("-");
    out.append(summary.as_str());
    proof {
        assert(out@ =~= dirname_str(*l, summary@));
    }
    out
}

impl CalendarItem {
    pub fn rowid(&self) -> (r: u32)
        ensures
            r == self@.rowid,
    {
        self.rowid
    }

    /// The stored start date-time, reinterpreted as UTC and rendered in the
    /// host's local calendar; for display only.  The host zone's offset moves
    /// the value by strictly less than one day.
    pub fn start_date_from_utc(&self) -> (r: DateTime)
        requires
            self.start_date.wf(),
        ensures
            local_rendering(r, self.start_date),
    {
        utc_to_local(&self.start_date)
    }

    /// The stored end date-time rendered in the host's local calendar; for
    /// display only.
    pub fn end_date_from_utc(&self) -> (r: DateTime)
        requires
            self.end_date.wf(),
        ensures
            local_rendering(r, self.end_date),
    {
        utc_to_local(&self.end_date)
    }

    /// The note directory name: the locally rendered start date and time
    /// (`%Y-%m-%d-%H_%M`) and the summary.
    pub fn dirname(&self) -> (r: String)
        requires
            self.start_date.wf(),
        ensures
            exists|l: DateTime|
                #[trigger] local_rendering(l, self.start_date) && r@ == dirname_str(
                    l,
                    self@.summary,
                ),
    {
        let l = self.start_date_from_utc();
        let r = note_dirname(&l, &self.summary);
        proof {
            assert(local_rendering(l, self.start_date) && r@ == dirname_str(l, self@.summary));
        }
        r
    }

    /// The note file name: the directory name with the `.md` extension.
    pub fn notename(&self) -> (r: String)
        requires
            self.start_date.wf(),
        ensures
            exists|l: DateTime|
                #[trigger] local_rendering(l, self.start_date) && r@ == notename_str(
                    l,
                    self@.summary,
                ),
    {
        let mut r = self.dirname();
        let ghost l = choose|l: DateTime|
            local_rendering(l, self.start_date) && r@ == dirname_str(l, self@.summary);
        r.append(".md");
        proof {
            assert(local_rendering(l, self.start_date) && r@ == notename_str(l, self@.summary));
        }
        r
    }
}

/// Relies on chrono's `Local::from_utc_datetime`: renders a date-time, taken
/// as UTC, in the host's local zone.  chrono keeps the fields a valid
/// calendar date and time of day, and a zone offset is strictly smaller than
/// one day, so the date moves by at most one day.
#[verifier::external_body]
fn utc_to_local(dt: &DateTime) -> (r: DateTime)
    requires
        dt.wf(),
    ensures
        local_rendering(r, *dt),
{
    let nd = chrono::NaiveDate::from_ymd_opt(dt.year as i32, dt.month as u32, dt.day as u32)
        .and_then(|d| d.and_hms_opt(dt.hour as u32, dt.minute as u32, dt.second as u32));
    match nd {
        Some(n) => {
            let l = chrono::Local.from_utc_datetime(&n).naive_local();
            DateTime {
                year: l.year() as i64, month: l.month() as u8, day: l.day() as u8,
                hour: l.hour() as u8, minute: l.minute() as u8, second: l.second() as u8,
            }
        },
        None => *dt,
    }
}

} // verus!
