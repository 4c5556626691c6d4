//! The repository over raw calendar database rows, and the windowed view.
//!
//! Reading the database file itself is input/output and stays with the
//! caller; the caller hands the raw rows of the relevant tables to the
//! functions here, which carry out everything the queries mean: the left
//! joins against the lookup tables, the timestamp translation, the window
//! filter, the ordering, and the per-field decode-or-default policy.

use vstd::prelude::*;
use vstd::seq_lib::lemma_multiset_commutative;
use vstd::seq_lib::to_multiset_build;

use chrono::{Datelike, Timelike};

use crate::attendees::ParticipantRow;
use crate::calendaritem::{item_desc_le, item_le, item_desc_le_exec, item_le_exec, CalendarItem,
    ItemView};
use crate::dates::{date_add_days, date_le, date_of_num, days_before_year, days_in_month,
    decode_end_timestamp, decode_start_timestamp, lemma_day_number_bounds,
    lemma_days_before_year_monotone, lemma_num_in_range, native_end_ok, native_start_dt,
    native_start_ok, window_date, Date, DateTime, DAYS_MAX, DAYS_MIN};

verus! {

/// One raw row of the event table.  `None` stands for a column that was
/// absent or could not be read with its expected type.
pub struct RawEventRow {
    pub rowid: Option<i64>,
    pub calendar_id: Option<i64>,
    pub location_id: Option<i64>,
    pub start_date: Option<i64>,
    pub end_date: Option<i64>,
    pub summary: Option<String>,
    pub description: Option<String>,
    pub all_day: Option<i64>,
}

/// One raw row of a lookup table (calendar or location names).
pub struct LookupRow {
    pub rowid: i64,
    pub title: Option<String>,
}

/// The raw contents of the tables a range query reads.
pub struct RawTables {
    pub events: Vec<RawEventRow>,
    pub calendars: Vec<LookupRow>,
    pub locations: Vec<LookupRow>,
}

/// The placeholder for string fields the row could not supply.
pub open spec fn na() -> Seq<char> {
    "<NA>"@
}

pub open spec fn str_or_na(o: Option<String>) -> Seq<char> {
    match o {
        Some(s) => s@,
        None => na(),
    }
}

/// Integer ids decode to 0 when absent or out of the unsigned 32-bit range.
pub open spec fn id_or_zero(o: Option<i64>) -> u32 {
    match o {
        Some(v) => if 0 <= v <= u32::MAX {
            v as u32
        } else {
            0
        },
        None => 0,
    }
}

/// The all-day flag is any non-zero integer; absent decodes to false.
pub open spec fn flag_or_false(o: Option<i64>) -> bool {
    match o {
        Some(v) => v != 0,
        None => false,
    }
}

/// A start timestamp decodes through the native start translation; absent or
/// untranslatable values fall back to the current date-time.
pub open spec fn start_or_now(o: Option<i64>, now: DateTime) -> DateTime {
    match o {
        Some(t) => if native_start_ok(t as int) {
            native_start_dt(t as int)
        } else {
            now
        },
        None => now,
    }
}

pub open spec fn end_or_now(o: Option<i64>, now: DateTime) -> DateTime {
    match o {
        Some(t) => if native_end_ok(t as int) {
            crate::dates::native_end_dt(t as int)
        } else {
            now
        },
        None => now,
    }
}

/// The title of the first lookup row with the given id, `"<NA>"` when the
/// row is missing or its title is: the left-join-with-default rule.
pub open spec fn title_lookup(rows: Seq<LookupRow>, id: int) -> Seq<char>
    decreases rows.len(),
{
    if rows.len() == 0 {
        na()
    } else if rows[0].rowid == id {
        str_or_na(rows[0].title)
    } else {
        title_lookup(rows.drop_first(), id)
    }
}

pub open spec fn joined_title(rows: Seq<LookupRow>, oid: Option<i64>) -> Seq<char> {
    match oid {
        Some(id) => title_lookup(rows, id as int),
        None => na(),
    }
}

/// The value of the event a raw row decodes to, given the lookup tables and
/// the current date-time (the fallback for untranslatable timestamps).
pub open spec fn decode_event(
    r: RawEventRow,
    cals: Seq<LookupRow>,
    locs: Seq<LookupRow>,
    now: DateTime,
) -> ItemView {
    ItemView {
        rowid: id_or_zero(r.rowid),
        calendar: joined_title(cals, r.calendar_id),
        start_date: start_or_now(r.start_date, now),
        end_date: end_or_now(r.end_date, now),
        summary: str_or_na(r.summary),
        description: str_or_na(r.description),
        location: joined_title(locs, r.location_id),
        all_day: flag_or_false(r.all_day),
    }
}

/// Whether a raw row falls in the window `[start, end]` (dates inclusive):
/// its start timestamp must translate, and the 31-year-shifted date — without
/// the one-day display shift — must lie in the range.
pub open spec fn in_window(r: RawEventRow, start: Date, end: Date) -> bool {
    match r.start_date {
        Some(t) => native_end_ok(t as int) && start.le(window_date(t as int)) && window_date(
            t as int,
        ).le(end),
        None => false,
    }
}

fn string_or_na(o: &Option<String>) -> (r: String)
    ensures
        r@ == str_or_na(*o),
{
    match o {
        Some(s) => s.clone(),
        None => String::from_str("<NA>"),
    }
}

fn lookup_title(rows: &Vec<LookupRow>, id: i64) -> (r: String)
    ensures
        r@ == title_lookup(rows@, id as int),
{
    let n = rows.len();
    proof {
        assert(rows@.skip(0) =~= rows@);
    }
    let mut i: usize = 0;
    while i < n
        invariant
            i <= n,
            n == rows@.len(),
            title_lookup(rows@, id as int) == title_lookup(rows@.skip(i as int), id as int),
        decreases n - i,
    {
        proof {
            assert(rows@.skip(i as int)[0] == rows@[i as int]);
            assert(rows@.skip(i as int).drop_first() =~= rows@.skip(i as int + 1));
        }
        if rows[i].rowid == id {
            return string_or_na(&rows[i].title);
        }
        i += 1;
    }
    proof {
        assert(rows@.skip(n as int).len() == 0);
    }
    String::from_str("<NA>")
}

fn decode_start_field(o: &Option<i64>, now: &DateTime) -> (r: DateTime)
    requires
        now.wf(),
    ensures
        r == start_or_now(*o, *now),
        r.wf(),
{
    match o {
        Some(t) => match decode_start_timestamp(*t) {
            Some(dt) => dt,
            None => *now,
        },
        None => *now,
    }
}

fn decode_end_field(o: &Option<i64>, now: &DateTime) -> (r: DateTime)
    requires
        now.wf(),
    ensures
        r == end_or_now(*o, *now),
        r.wf(),
{
    match o {
        Some(t) => match decode_end_timestamp(*t) {
            Some(dt) => dt,
            None => *now,
        },
        None => *now,
    }
}

fn decode_id(o: &Option<i64>) -> (r: u32)
    ensures
        r == id_or_zero(*o),
{
    match o {
        Some(v) => if 0 <= *v && *v <= u32::MAX as i64 {
            *v as u32
        } else {
            0
        },
        None => 0,
    }
}

/// Decode one raw event row, substituting each field's documented default
/// where the column is unreadable; a malformed column never drops the row.
pub fn decode_event_row(
    r: &RawEventRow,
    calendars: &Vec<LookupRow>,
    locations: &Vec<LookupRow>,
    now: &DateTime,
) -> (it: CalendarItem)
    requires
        now.wf(),
    ensures
        it@ == decode_event(*r, calendars@, locations@, *now),
        it@.wf(),
{
    let calendar = match r.calendar_id {
        Some(id) => lookup_title(calendars, id),
        None => String::from_str("<NA>"),
    };
    let location = match r.location_id {
        Some(id) => lookup_title(locations, id),
        None => String::from_str("<NA>"),
    };
    CalendarItem {
        rowid: decode_id(&r.rowid),
        calendar,
        start_date: decode_start_field(&r.start_date, now),
        end_date: decode_end_field(&r.end_date, now),
        summary: string_or_na(&r.summary),
        description: string_or_na(&r.description),
        location,
        all_day: match r.all_day {
            Some(v) => v != 0,
            None => false,
        },
    }
}

/// The values of a sequence of decoded events.
pub open spec fn views_of(s: Seq<CalendarItem>) -> Seq<ItemView> {
    s.map_values(|it: CalendarItem| it@)
}

/// Ascending range-query order: start date-time, then the all-day flag.
pub open spec fn sorted_asc(items: Seq<ItemView>) -> bool {
    forall|p: int, q: int| 0 <= p < q < items.len() ==> #[trigger] item_le(items[p], items[q])
}

/// Descending attendee-query order: start date-time, latest first.
pub open spec fn sorted_desc(items: Seq<ItemView>) -> bool {
    forall|p: int, q: int|
        0 <= p < q < items.len() ==> #[trigger] item_desc_le(items[p], items[q])
}

pub open spec fn all_wf(items: Seq<ItemView>) -> bool {
    forall|k: int| 0 <= k < items.len() ==> (#[trigger] items[k]).wf()
}

/// Both item orders are total and transitive.
proof fn lemma_item_order()
    ensures
        forall|a: ItemView, b: ItemView| #[trigger] item_le(a, b) || #[trigger] item_le(b, a),
        forall|a: ItemView, b: ItemView, c: ItemView|
            item_le(a, b) && #[trigger] item_le(b, c) ==> #[trigger] item_le(a, c),
        forall|a: ItemView, b: ItemView|
            #[trigger] item_desc_le(a, b) || #[trigger] item_desc_le(b, a),
        forall|a: ItemView, b: ItemView, c: ItemView|
            item_desc_le(a, b) && #[trigger] item_desc_le(b, c) ==> #[trigger] item_desc_le(a, c),
{
}

/// Inserting into a sequence inserts into its multiset of values.
proof fn lemma_insert_to_multiset<A>(s: Seq<A>, j: int, a: A)
    requires
        0 <= j <= s.len(),
    ensures
        s.insert(j, a).to_multiset() =~= s.to_multiset().insert(a),
{
    broadcast use vstd::seq_lib::group_to_multiset_ensures;

    let pre = s.subrange(0, j);
    let post = s.subrange(j, s.len() as int);
    assert(s.insert(j, a) == pre.push(a) + post);
    lemma_multiset_commutative(pre.push(a), post);
    lemma_multiset_commutative(pre, post);
    to_multiset_build(pre, a);
    assert(pre + post =~= s);
}

proof fn lemma_views_of_insert(s: Seq<CalendarItem>, j: int, it: CalendarItem)
    requires
        0 <= j <= s.len(),
    ensures
        views_of(s.insert(j, it)) =~= views_of(s).insert(j, it@),
{
    let a = views_of(s.insert(j, it));
    let b = views_of(s).insert(j, it@);
    s.insert_ensures(j, it);
    views_of(s).insert_ensures(j, it@);
    assert forall|k: int| 0 <= k < a.len() implies a[k] == b[k] by {
        assert(a[k] == s.insert(j, it)[k]@);
    }
    assert(a =~= b);
}

/// Appending a row to the input appends or skips in the filtered output,
/// according to the predicate.
pub(crate) proof fn lemma_filter_push<A>(s: Seq<A>, x: A, pred: spec_fn(A) -> bool)
    ensures
        s.push(x).filter(pred) == if pred(x) {
            s.filter(pred).push(x)
        } else {
            s.filter(pred)
        },
{
    reveal_with_fuel(Seq::filter, 2);
    let t = s.push(x);
    assert(t.len() == s.len() + 1);
    assert(t.drop_last() =~= s);
    assert(t.last() == x);
    assert(t.filter(pred) == if pred(t.last()) {
        t.drop_last().filter(pred).push(t.last())
    } else {
        t.drop_last().filter(pred)
    });
}

pub(crate) proof fn lemma_map_values_push<A, B>(s: Seq<A>, x: A, f: spec_fn(A) -> B)
    ensures
        s.push(x).map_values(f) =~= s.map_values(f).push(f(x)),
{
    assert forall|k: int| 0 <= k < s.len() + 1 implies s.push(x).map_values(f)[k] == s.map_values(
        f,
    ).push(f(x))[k] by {}
}

/// Insert an item into an ascending-sorted vector, keeping it sorted.
fn insert_sorted_asc(v: &mut Vec<CalendarItem>, it: CalendarItem)
    requires
        sorted_asc(views_of(old(v)@)),
    ensures
        exists|j: int| 0 <= j <= old(v)@.len() && final(v)@ == old(v)@.insert(j, it),
        sorted_asc(views_of(final(v)@)),
{
    proof {
        lemma_item_order();
    }
    let mut j: usize = v.len();
    loop
        invariant
            j <= v@.len(),
            v@ == old(v)@,
            sorted_asc(views_of(v@)),
            forall|k: int| j <= k < v@.len() ==> item_le(it@, #[trigger] views_of(v@)[k]),
        ensures
            j <= v@.len(),
            v@ == old(v)@,
            forall|k: int| j <= k < v@.len() ==> item_le(it@, #[trigger] views_of(v@)[k]),
            j > 0 ==> item_le(views_of(v@)[j - 1], it@),
        decreases j,
    {
        if j == 0 {
            break ;
        }
        if item_le_exec(&v[j - 1], &it) {
            break ;
        }
        proof {
            lemma_item_order();
            assert(item_le(it@, views_of(v@)[j - 1]));
        }
        j -= 1;
    }
    proof {
        lemma_item_order();
        assert forall|k: int| 0 <= k < j implies item_le(
            #[trigger] views_of(v@)[k],
            it@,
        ) by {
            if k < j - 1 {
                assert(item_le(views_of(v@)[k], views_of(v@)[j - 1]));
            }
        }
    }
    let ghost pre = v@;
    v.insert(j, it);
    proof {
        pre.insert_ensures(j as int, it);
        lemma_views_of_insert(pre, j as int, it);
        let a = views_of(v@);
        let b = views_of(pre);
        assert forall|p: int, q: int| 0 <= p < q < a.len() implies #[trigger] item_le(
            a[p],
            a[q],
        ) by {
            assert(a =~= b.insert(j as int, it@));
            b.insert_ensures(j as int, it@);
            if q < j {
                assert(item_le(b[p], b[q]));
            } else if p < j && q == j {
                assert(a[p] == b[p] && a[q] == it@);
            } else if p < j {
                assert(a[p] == b[p] && a[q] == b[q - 1]);
                assert(item_le(b[p], it@) && item_le(it@, b[q - 1]));
            } else if p == j {
                assert(a[p] == it@ && a[q] == b[q - 1]);
            } else {
                assert(a[p] == b[p - 1] && a[q] == b[q - 1]);
                assert(item_le(b[p - 1], b[q - 1]));
            }
        }
        assert(v@ == pre.insert(j as int, it));
    }
}

/// Insert an item into a descending-sorted vector, keeping it sorted.
fn insert_sorted_desc(v: &mut Vec<CalendarItem>, it: CalendarItem)
    requires
        sorted_desc(views_of(old(v)@)),
    ensures
        exists|j: int| 0 <= j <= old(v)@.len() && final(v)@ == old(v)@.insert(j, it),
        sorted_desc(views_of(final(v)@)),
{
    proof {
        lemma_item_order();
    }
    let mut j: usize = v.len();
    loop
        invariant
            j <= v@.len(),
            v@ == old(v)@,
            sorted_desc(views_of(v@)),
            forall|k: int|
                j <= k < v@.len() ==> item_desc_le(it@, #[trigger] views_of(v@)[k]),
        ensures
            j <= v@.len(),
            v@ == old(v)@,
            forall|k: int|
                j <= k < v@.len() ==> item_desc_le(it@, #[trigger] views_of(v@)[k]),
            j > 0 ==> item_desc_le(views_of(v@)[j - 1], it@),
        decreases j,
    {
        if j == 0 {
            break ;
        }
        if item_desc_le_exec(&v[j - 1], &it) {
            break ;
        }
        proof {
            lemma_item_order();
            assert(item_desc_le(it@, views_of(v@)[j - 1]));
        }
        j -= 1;
    }
    proof {
        lemma_item_order();
        assert forall|k: int| 0 <= k < j implies item_desc_le(
            #[trigger] views_of(v@)[k],
            it@,
        ) by {
            if k < j - 1 {
                assert(item_desc_le(views_of(v@)[k], views_of(v@)[j - 1]));
            }
        }
    }
    let ghost pre = v@;
    v.insert(j, it);
    proof {
        pre.insert_ensures(j as int, it);
        lemma_views_of_insert(pre, j as int, it);
        let a = views_of(v@);
        let b = views_of(pre);
        assert forall|p: int, q: int| 0 <= p < q < a.len() implies #[trigger] item_desc_le(
            a[p],
            a[q],
        ) by {
            assert(a =~= b.insert(j as int, it@));
            b.insert_ensures(j as int, it@);
            if q < j {
                assert(item_desc_le(b[p], b[q]));
            } else if p < j && q == j {
                assert(a[p] == b[p] && a[q] == it@);
            } else if p < j {
                assert(a[p] == b[p] && a[q] == b[q - 1]);
                assert(item_desc_le(b[p], it@) && item_desc_le(it@, b[q - 1]));
            } else if p == j {
                assert(a[p] == it@ && a[q] == b[q - 1]);
            } else {
                assert(a[p] == b[p - 1] && a[q] == b[q - 1]);
                assert(item_desc_le(b[p - 1], b[q - 1]));
            }
        }
        assert(v@ == pre.insert(j as int, it));
    }
}

/// The window predicate of a range query.
pub open spec fn window_pred(start: Date, end: Date) -> spec_fn(RawEventRow) -> bool {
    |r: RawEventRow| in_window(r, start, end)
}

/// The decoder a query applies to each selected row.
pub open spec fn row_decoder(
    cals: Seq<LookupRow>,
    locs: Seq<LookupRow>,
    now: DateTime,
) -> spec_fn(RawEventRow) -> ItemView {
    |r: RawEventRow| decode_event(r, cals, locs, now)
}

/// The decoded values of the rows a range query selects, in input order.
pub open spec fn range_selection(
    events: Seq<RawEventRow>,
    cals: Seq<LookupRow>,
    locs: Seq<LookupRow>,
    start: Date,
    end: Date,
    now: DateTime,
) -> Seq<ItemView> {
    events.filter(window_pred(start, end)).map_values(row_decoder(cals, locs, now))
}

/// What a range query returns: exactly the decoded in-window rows, in
/// ascending start order with the all-day flag as tie breaker.
pub open spec fn is_range_result(
    items: Seq<ItemView>,
    events: Seq<RawEventRow>,
    cals: Seq<LookupRow>,
    locs: Seq<LookupRow>,
    start: Date,
    end: Date,
    now: DateTime,
) -> bool {
    &&& items.to_multiset() == range_selection(events, cals, locs, start, end, now).to_multiset()
    &&& sorted_asc(items)
    &&& all_wf(items)
}

proof fn lemma_filter_subset<A>(s: Seq<A>, pred: spec_fn(A) -> bool, j: int)
    requires
        0 <= j < s.filter(pred).len(),
    ensures
        s.contains(s.filter(pred)[j]),
    decreases s.len(),
{
    reveal_with_fuel(Seq::filter, 2);
    if s.len() > 0 {
        let sub = s.drop_last().filter(pred);
        if j < sub.len() {
            lemma_filter_subset(s.drop_last(), pred, j);
            let i = choose|i: int| 0 <= i < s.drop_last().len() && s.drop_last()[i] == sub[j];
            assert(s[i] == sub[j]);
        } else {
            assert(s.filter(pred)[j] == s.last());
        }
    }
}

/// Whether an item value is the decoding of some input row whose translated
/// start date lies in the inclusive window.
pub open spec fn window_sound_item(
    v: ItemView,
    events: Seq<RawEventRow>,
    cals: Seq<LookupRow>,
    locs: Seq<LookupRow>,
    start: Date,
    end: Date,
    now: DateTime,
) -> bool {
    exists|i: int|
        0 <= i < events.len() && in_window(events[i], start, end) && v == #[trigger] decode_event(
            events[i],
            cals,
            locs,
            now,
        )
}

/// Range-query soundness: every event a range result holds decodes from some
/// input row whose translated start date lies in the inclusive window.
pub proof fn lemma_range_result_sound(
    items: Seq<ItemView>,
    events: Seq<RawEventRow>,
    cals: Seq<LookupRow>,
    locs: Seq<LookupRow>,
    start: Date,
    end: Date,
    now: DateTime,
)
    requires
        is_range_result(items, events, cals, locs, start, end, now),
    ensures
        forall|k: int|
            0 <= k < items.len() ==> window_sound_item(
                #[trigger] items[k],
                events,
                cals,
                locs,
                start,
                end,
                now,
            ),
{
    broadcast use vstd::seq_lib::group_to_multiset_ensures;

    let pred = window_pred(start, end);
    let dec = row_decoder(cals, locs, now);
    let filtered = events.filter(pred);
    let sel = filtered.map_values(dec);
    assert forall|k: int| 0 <= k < items.len() implies window_sound_item(
        #[trigger] items[k],
        events,
        cals,
        locs,
        start,
        end,
        now,
    ) by {
        let v = items[k];
        assert(items.contains(v));
        assert(items.to_multiset().count(v) > 0);
        assert(sel.to_multiset().count(v) > 0);
        assert(sel.contains(v));
        let j = choose|j: int| 0 <= j < sel.len() && sel[j] == v;
        assert(sel[j] == dec(filtered[j]));
        events.lemma_filter_pred(pred, j);
        lemma_filter_subset(events, pred, j);
        let i = choose|i: int| 0 <= i < events.len() && events[i] == filtered[j];
        assert(0 <= i < events.len() && in_window(events[i], start, end) && v == decode_event(
            events[i],
            cals,
            locs,
            now,
        ));
    }
}

/// Range-query completeness: the decoding of every in-window input row
/// appears in a range result.
pub proof fn lemma_range_result_complete(
    items: Seq<ItemView>,
    events: Seq<RawEventRow>,
    cals: Seq<LookupRow>,
    locs: Seq<LookupRow>,
    start: Date,
    end: Date,
    now: DateTime,
)
    requires
        is_range_result(items, events, cals, locs, start, end, now),
    ensures
        forall|i: int|
            0 <= i < events.len() && in_window(events[i], start, end) ==> items.contains(
                #[trigger] decode_event(events[i], cals, locs, now),
            ),
{
    broadcast use vstd::seq_lib::group_to_multiset_ensures;

    let pred = window_pred(start, end);
    let dec = row_decoder(cals, locs, now);
    let filtered = events.filter(pred);
    let sel = filtered.map_values(dec);
    assert forall|i: int| 0 <= i < events.len() && in_window(events[i], start, end) implies items
        .contains(#[trigger] decode_event(events[i], cals, locs, now)) by {
        events.lemma_filter_contains(pred, i);
        let j = choose|j: int| 0 <= j < filtered.len() && filtered[j] == events[i];
        let v = decode_event(events[i], cals, locs, now);
        assert(sel[j] == v);
        assert(sel.contains(v));
        assert(sel.to_multiset().count(v) > 0);
        assert(items.to_multiset().count(v) > 0);
    }
}

/// Refresh idempotence: two range results over the same raw tables and the
/// same window — and the same fallback date-time — hold exactly the same
/// events, whatever order ties were placed in.
pub proof fn lemma_refresh_idempotent(
    items1: Seq<ItemView>,
    items2: Seq<ItemView>,
    events: Seq<RawEventRow>,
    cals: Seq<LookupRow>,
    locs: Seq<LookupRow>,
    start: Date,
    end: Date,
    now: DateTime,
)
    requires
        is_range_result(items1, events, cals, locs, start, end, now),
        is_range_result(items2, events, cals, locs, start, end, now),
    ensures
        items1.to_multiset() == items2.to_multiset(),
{
}

/// The range query over raw rows: keep exactly the events whose translated
/// start date falls in the inclusive window `[start_date, end_date]`, decode
/// them with the left-joined lookup titles and the decode-or-default policy,
/// and order them by start date-time ascending, all-day flag second.  A
/// window with no matching rows yields the empty vector.
pub fn get_items(
    events: &Vec<RawEventRow>,
    calendars: &Vec<LookupRow>,
    locations: &Vec<LookupRow>,
    start_date: &Date,
    end_date: &Date,
    now: &DateTime,
) -> (items: Vec<CalendarItem>)
    requires
        now.wf(),
    ensures
        is_range_result(
            views_of(items@),
            events@,
            calendars@,
            locations@,
            *start_date,
            *end_date,
            *now,
        ),
{
    broadcast use vstd::seq_lib::group_to_multiset_ensures;

    let ghost pred = window_pred(*start_date, *end_date);
    let ghost dec = row_decoder(calendars@, locations@, *now);
    let mut items: Vec<CalendarItem> = Vec::new();
    proof {
        assert(events@.take(0).filter(pred) =~= Seq::<RawEventRow>::empty());
        assert(views_of(items@) =~= Seq::<ItemView>::empty());
        assert(Seq::<RawEventRow>::empty().map_values(dec) =~= Seq::<ItemView>::empty());
    }
    let n = events.len();
    let mut i: usize = 0;
    while i < n
        invariant
            i <= n,
            n == events@.len(),
            now.wf(),
            pred == window_pred(*start_date, *end_date),
            dec == row_decoder(calendars@, locations@, *now),
            sorted_asc(views_of(items@)),
            all_wf(views_of(items@)),
            views_of(items@).to_multiset() == events@.take(i as int).filter(pred).map_values(
                dec,
            ).to_multiset(),
        decreases n - i,
    {
        let ghost taken = events@.take(i as int);
        let ghost ev = events@[i as int];
        proof {
            assert(events@.take(i as int + 1) =~= taken.push(ev));
            lemma_filter_push(taken, ev, pred);
        }
        if event_in_window(&events[i], start_date, end_date) {
            let it = decode_event_row(&events[i], calendars, locations, now);
            let ghost pre = items@;
            insert_sorted_asc(&mut items, it);
            proof {
                let j = choose|j: int| 0 <= j <= pre.len() && items@ == pre.insert(j, it);
                lemma_views_of_insert(pre, j, it);
                lemma_insert_to_multiset(views_of(pre), j, it@);
                lemma_map_values_push(taken.filter(pred), ev, dec);
                assert(pred(ev));
                assert(events@.take(i as int + 1).filter(pred) == taken.filter(pred).push(ev));
                assert(dec(ev) == it@);
                to_multiset_build(taken.filter(pred).map_values(dec), dec(ev));
                assert(events@.take(i as int + 1).filter(pred).map_values(dec).to_multiset()
                    == taken.filter(pred).map_values(dec).to_multiset().insert(it@));
                assert(views_of(items@) =~= views_of(pre).insert(j, it@));
                assert(views_of(items@).to_multiset() == views_of(pre).to_multiset().insert(
                    it@,
                ));
                pre.insert_ensures(j, it);
                assert forall|k: int| 0 <= k < views_of(items@).len() implies (#[trigger] views_of(
                    items@,
                )[k]).wf() by {
                    if k < j {
                        assert(views_of(items@)[k] == views_of(pre)[k]);
                    } else if k == j {
                        assert(views_of(items@)[k] == it@);
                    } else {
                        assert(views_of(items@)[k] == views_of(pre)[k - 1]);
                    }
                }
            }
        } else {
            proof {
                assert(!pred(ev));
            }
        }
        i += 1;
    }
    proof {
        assert(events@.take(n as int) =~= events@);
    }
    items
}

/// Whether a raw row's start timestamp falls in the inclusive date window.
pub fn event_in_window(r: &RawEventRow, start: &Date, end: &Date) -> (b: bool)
    ensures
        b == in_window(*r, *start, *end),
{
    match r.start_date {
        Some(t) => match decode_end_timestamp(t) {
            Some(dt) => {
                let d = Date { year: dt.year, month: dt.month, day: dt.day };
                date_le(start, &d) && date_le(&d, end)
            },
            None => false,
        },
        None => false,
    }
}

/// Whether the event at index `i` is associated with the given attendee:
/// some participant row carries that attendee's identity and names the
/// event's row id as its owner.
pub open spec fn associated(
    events: Seq<RawEventRow>,
    parts: Seq<ParticipantRow>,
    aid: u32,
    i: int,
) -> bool {
    &&& 0 <= i < events.len()
    &&& events[i].rowid is Some
    &&& exists|k: int|
        0 <= k < parts.len() && parts[k].identity_id == Some(aid as i64) && #[trigger] parts[
            k
        ].owner_id == events[i].rowid
}

/// Whether an item value is the decoding of some event associated with the
/// given attendee.
pub open spec fn sound_item(
    v: ItemView,
    events: Seq<RawEventRow>,
    parts: Seq<ParticipantRow>,
    aid: u32,
    cals: Seq<LookupRow>,
    locs: Seq<LookupRow>,
    now: DateTime,
) -> bool {
    exists|i: int|
        associated(events, parts, aid, i) && v == #[trigger] decode_event(
            events[i],
            cals,
            locs,
            now,
        )
}

fn event_matches(parts: &Vec<ParticipantRow>, aid: u32, rid: i64) -> (b: bool)
    ensures
        b == exists|k: int|
            0 <= k < parts@.len() && parts@[k].identity_id == Some(aid as i64) && #[trigger] parts@[
                k
            ].owner_id == Some(rid),
{
    let n = parts.len();
    let mut i: usize = 0;
    while i < n
        invariant
            i <= n,
            n == parts@.len(),
            forall|k: int|
                0 <= k < i ==> !(parts@[k].identity_id == Some(aid as i64) && #[trigger] parts@[
                    k
                ].owner_id == Some(rid)),
        decreases n - i,
    {
        let ok_identity = match parts[i].identity_id {
            Some(v) => v == aid as i64,
            None => false,
        };
        let ok_owner = match parts[i].owner_id {
            Some(v) => v == rid,
            None => false,
        };
        if ok_identity && ok_owner {
            return true;
        }
        i += 1;
    }
    false
}

fn contains_rowid(v: &Vec<CalendarItem>, rid: u32) -> (b: bool)
    ensures
        b == exists|k: int| 0 <= k < v@.len() && (#[trigger] views_of(v@)[k]).rowid == rid,
{
    let n = v.len();
    let mut i: usize = 0;
    while i < n
        invariant
            i <= n,
            n == v@.len(),
            forall|k: int| 0 <= k < i ==> (#[trigger] views_of(v@)[k]).rowid != rid,
        decreases n - i,
    {
        if v[i].rowid == rid {
            proof {
                assert(views_of(v@)[i as int].rowid == rid);
            }
            return true;
        }
        i += 1;
    }
    false
}

/// The attendee query: the events associated with the given attendee id, in
/// descending start order, each event's row id at most once; an attendee
/// with no associated events yields the empty vector, never an error.
pub fn filter_attendees(
    events: &Vec<RawEventRow>,
    calendars: &Vec<LookupRow>,
    locations: &Vec<LookupRow>,
    participants: &Vec<ParticipantRow>,
    attendee_id: u32,
    now: &DateTime,
) -> (items: Vec<CalendarItem>)
    requires
        now.wf(),
    ensures
        sorted_desc(views_of(items@)),
        all_wf(views_of(items@)),
        forall|p: int, q: int|
            0 <= p < q < items@.len() ==> (#[trigger] views_of(items@)[p]).rowid != (
            #[trigger] views_of(items@)[q]).rowid,
        forall|k: int|
            0 <= k < items@.len() ==> sound_item(
                #[trigger] views_of(items@)[k],
                events@,
                participants@,
                attendee_id,
                calendars@,
                locations@,
                *now,
            ),
        forall|i: int|
            #[trigger] associated(events@, participants@, attendee_id, i) ==> exists|k: int|
                0 <= k < items@.len() && views_of(items@)[k].rowid == id_or_zero(
                    events@[i].rowid,
                ),
        items@.len() == 0 <==> !(exists|i: int|
            associated(events@, participants@, attendee_id, i)),
{
    let mut items: Vec<CalendarItem> = Vec::new();
    proof {
        assert(views_of(items@) =~= Seq::<ItemView>::empty());
    }
    let n = events.len();
    let mut i: usize = 0;
    while i < n
        invariant
            i <= n,
            n == events@.len(),
            now.wf(),
            sorted_desc(views_of(items@)),
            all_wf(views_of(items@)),
            forall|p: int, q: int|
                0 <= p < q < items@.len() ==> (#[trigger] views_of(items@)[p]).rowid != (
                #[trigger] views_of(items@)[q]).rowid,
            forall|k: int|
                0 <= k < items@.len() ==> sound_item(
                    #[trigger] views_of(items@)[k],
                    events@,
                    participants@,
                    attendee_id,
                    calendars@,
                    locations@,
                    *now,
                ),
            forall|i0: int|
                0 <= i0 < i && #[trigger] associated(events@, participants@, attendee_id, i0)
                    ==> exists|k: int|
                    0 <= k < items@.len() && views_of(items@)[k].rowid == id_or_zero(
                        events@[i0].rowid,
                    ),
        decreases n - i,
    {
        let r = &events[i];
        match r.rowid {
            None => {
                proof {
                    assert(!associated(events@, participants@, attendee_id, i as int));
                }
            },
            Some(rid) => {
                if event_matches(participants, attendee_id, rid) {
                    let it = decode_event_row(r, calendars, locations, now);
                    if contains_rowid(&items, it.rowid) {
                        proof {
                            assert(associated(events@, participants@, attendee_id, i as int));
                            assert(it@.rowid == id_or_zero(events@[i as int].rowid));
                        }
                    } else {
                        let ghost pre = items@;
                        insert_sorted_desc(&mut items, it);
                        proof {
                            let j = choose|j: int|
                                0 <= j <= pre.len() && items@ == pre.insert(j, it);
                            lemma_views_of_insert(pre, j, it);
                            pre.insert_ensures(j, it);
                            views_of(pre).insert_ensures(j, it@);
                            let a = views_of(items@);
                            let b = views_of(pre);
                            assert(a =~= b.insert(j, it@));
                            assert(associated(events@, participants@, attendee_id, i as int));
                            assert(it@ == decode_event(
                                events@[i as int],
                                calendars@,
                                locations@,
                                *now,
                            ));
                            // every new position holds an old item or the new one
                            assert forall|k: int| 0 <= k < a.len() implies sound_item(
                                #[trigger] a[k],
                                events@,
                                participants@,
                                attendee_id,
                                calendars@,
                                locations@,
                                *now,
                            ) by {
                                if k == j {
                                    assert(a[k] == it@);
                                    assert(associated(
                                        events@,
                                        participants@,
                                        attendee_id,
                                        i as int,
                                    ) && a[k] == decode_event(
                                        events@[i as int],
                                        calendars@,
                                        locations@,
                                        *now,
                                    ));
                                } else {
                                    let k0: int = if k < j {
                                        k
                                    } else {
                                        k - 1
                                    };
                                    assert(a[k] == b[k0]);
                                    assert(sound_item(
                                        b[k0],
                                        events@,
                                        participants@,
                                        attendee_id,
                                        calendars@,
                                        locations@,
                                        *now,
                                    ));
                                }
                            }
                            // distinct row ids
                            assert forall|p: int, q: int| 0 <= p < q < a.len() implies (
                            #[trigger] a[p]).rowid != (#[trigger] a[q]).rowid by {
                                if q < j {
                                } else if p < j && q == j {
                                    assert(a[p] == b[p] && a[q] == it@);
                                } else if p < j {
                                    assert(a[p] == b[p] && a[q] == b[q - 1]);
                                } else if p == j {
                                    assert(a[p] == it@ && a[q] == b[q - 1]);
                                } else {
                                    assert(a[p] == b[p - 1] && a[q] == b[q - 1]);
                                }
                            }
                            // well-formedness
                            assert forall|k: int| 0 <= k < a.len() implies (
                            #[trigger] a[k]).wf() by {
                                if k < j {
                                    assert(a[k] == b[k]);
                                } else if k == j {
                                    assert(a[k] == it@);
                                } else {
                                    assert(a[k] == b[k - 1]);
                                }
                            }
                            // completeness carries over, the new event included
                            assert forall|i0: int|
                                0 <= i0 < i + 1 && #[trigger] associated(
                                    events@,
                                    participants@,
                                    attendee_id,
                                    i0,
                                ) implies exists|k: int|
                                0 <= k < a.len() && a[k].rowid == id_or_zero(
                                    events@[i0].rowid,
                                ) by {
                                if i0 == i as int {
                                    assert(a[j].rowid == id_or_zero(events@[i0].rowid));
                                } else {
                                    let k = choose|k: int|
                                        0 <= k < b.len() && b[k].rowid == id_or_zero(
                                            events@[i0].rowid,
                                        );
                                    if k < j {
                                        assert(a[k].rowid == id_or_zero(events@[i0].rowid));
                                    } else {
                                        assert(a[k + 1].rowid == id_or_zero(
                                            events@[i0].rowid,
                                        ));
                                    }
                                }
                            }
                        }
                    }
                } else {
                    proof {
                        assert(!associated(events@, participants@, attendee_id, i as int));
                    }
                }
            },
        }
        i += 1;
    }
    proof {
        if items@.len() > 0 {
            assert(sound_item(
                views_of(items@)[0],
                events@,
                participants@,
                attendee_id,
                calendars@,
                locations@,
                *now,
            ));
            let i0 = choose|i0: int|
                associated(events@, participants@, attendee_id, i0) && views_of(items@)[0]
                    == #[trigger] decode_event(events@[i0], calendars@, locations@, *now);
            assert(associated(events@, participants@, attendee_id, i0));
        }
        if exists|i1: int| associated(events@, participants@, attendee_id, i1) {
            let i1 = choose|i1: int| associated(events@, participants@, attendee_id, i1);
            assert(associated(events@, participants@, attendee_id, i1));
            assert(items@.len() > 0);
        }
    }
    items
}

/// The mathematical value of a `CalendarData`.
pub ghost struct CalDataView {
    pub db_path: Seq<char>,
    pub items: Seq<ItemView>,
    pub start_date: Date,
    pub end_date: Date,
}

/// The windowed calendar view: the observed date window, the backing
/// database path, and the result set of the last successful refresh.  Every
/// operation either fully succeeds — bounds updated, result set replaced —
/// or fully fails and leaves both untouched.
pub struct CalendarData {
    db_path: String,
    pub cal_items: Vec<CalendarItem>,
    start_date: Date,
    end_date: Date,
}

impl View for CalendarData {
    type V = CalDataView;

    closed spec fn view(&self) -> CalDataView {
        CalDataView {
            db_path: self.db_path@,
            items: views_of(self.cal_items@),
            start_date: self.start_date,
            end_date: self.end_date,
        }
    }
}

pub open spec fn clock_date(now: DateTime) -> Date {
    Date { year: now.year, month: now.month, day: now.day }
}

/// The default window around a day: from the day before through 12 weeks
/// (84 days) after.
pub open spec fn is_default_window(start: Date, end: Date, today: Date) -> bool {
    &&& start == date_of_num(today.num() - 1)
    &&& end == date_of_num(today.num() + 84)
    &&& start.wf() && end.wf()
    &&& start.num() == today.num() - 1
    &&& end.num() == today.num() + 84
}

/// The default window bounds for the given day: yesterday through 12 weeks
/// ahead.
pub fn default_window(today: &Date) -> (r: (Date, Date))
    requires
        today.wf(),
        1 <= today.year <= 9998,
    ensures
        is_default_window(r.0, r.1, *today),
{
    proof {
        lemma_day_number_bounds(*today);
        lemma_days_before_year_monotone(1, today.year as int);
        lemma_days_before_year_monotone(today.year as int + 1, 9999);
        assert(days_before_year(1int) == 366);
        assert(days_before_year(9999int) == 3652060);
    }
    let s = date_add_days(today, -1);
    let e = date_add_days(today, 84);
    (s, e)
}

/// Relies on chrono's `Local::now`: the current date and time of day in the
/// host's local calendar.  chrono keeps the fields a valid calendar date and
/// a valid time of day.
#[verifier::external_body]
fn read_local_clock() -> (r: DateTime)
    ensures
        1 <= r.month <= 12,
        1 <= r.day <= days_in_month(r.year as int, r.month as int),
        r.hour < 24 && r.minute < 60 && r.second < 60,
{
    let l = chrono::Local::now().naive_local();
    DateTime {
        year: l.year() as i64,
        month: l.month() as u8,
        day: l.day() as u8,
        hour: l.hour() as u8,
        minute: l.minute() as u8,
        second: l.second() as u8,
    }
}

/// The current local date-time.  A host clock outside the supported year
/// range is replaced by the reference epoch 2001-01-01, so the result always
/// admits the default-window arithmetic.
fn now_local() -> (r: DateTime)
    ensures
        r.wf(),
        1 <= r.year <= 9998,
{
    let c = read_local_clock();
    if 1 <= c.year && c.year <= 9998 {
        c
    } else {
        DateTime { year: 2001, month: 1, day: 1, hour: 0, minute: 0, second: 0 }
    }
}

impl CalendarData {
    pub open spec fn wf(self) -> bool {
        self@.start_date.wf() && self@.end_date.wf()
    }

    /// Create a view with the default window around today and the result of
    /// a first refresh from the given raw tables.  A failed read is handed
    /// back unchanged and nothing is created.
    pub fn new<E>(db_path: String, fetched: Result<RawTables, E>) -> (r: Result<
        CalendarData,
        E,
    >)
        ensures
            fetched is Err ==> (fetched matches Err(e) && r == Err::<
                CalendarData,
                E,
            >(e)),
            fetched matches Ok(t) ==> (r matches Ok(cd) && cd.wf() && cd@.db_path
                == db_path@ && exists|now: DateTime|
                {
                    &&& #[trigger] now.wf()
                    &&& 1 <= now.year <= 9998
                    &&& is_default_window(cd@.start_date, cd@.end_date, clock_date(now))
                    &&& is_range_result(
                        cd@.items,
                        t.events@,
                        t.calendars@,
                        t.locations@,
                        cd@.start_date,
                        cd@.end_date,
                        now,
                    )
                }),
    {
        match fetched {
            Ok(t) => {
                let now = now_local();
                let today = Date { year: now.year, month: now.month, day: now.day };
                let (s, e) = default_window(&today);
                let items = get_items(&t.events, &t.calendars, &t.locations, &s, &e, &now);
                let cd = CalendarData { db_path, cal_items: items, start_date: s, end_date: e };
                proof {
                    assert(clock_date(now) == today);
                    assert(now.wf() && 1 <= now.year <= 9998 && is_default_window(
                        cd@.start_date,
                        cd@.end_date,
                        clock_date(now),
                    ) && is_range_result(
                        cd@.items,
                        t.events@,
                        t.calendars@,
                        t.locations@,
                        cd@.start_date,
                        cd@.end_date,
                        now,
                    ));
                }
                Ok(cd)
            },
            Err(e) => Err(e),
        }
    }

    /// Re-run the range query for the current bounds and replace the result
    /// set; a failed read leaves the view exactly as it was.
    pub fn refresh<E>(&mut self, fetched: Result<RawTables, E>) -> (r: Result<(), E>)
        requires
            old(self).wf(),
        ensures
            final(self).wf(),
            final(self)@.db_path == old(self)@.db_path,
            final(self)@.start_date == old(self)@.start_date,
            final(self)@.end_date == old(self)@.end_date,
            fetched is Err ==> (fetched matches Err(e) && r == Err::<(), E>(e) && *final(self)
                == *old(self)),
            fetched matches Ok(t) ==> r is Ok && exists|now: DateTime|
                #[trigger] now.wf() && is_range_result(
                    final(self)@.items,
                    t.events@,
                    t.calendars@,
                    t.locations@,
                    old(self)@.start_date,
                    old(self)@.end_date,
                    now,
                ),
    {
        match fetched {
            Ok(t) => {
                let now = now_local();
                let items = get_items(
                    &t.events,
                    &t.calendars,
                    &t.locations,
                    &self.start_date,
                    &self.end_date,
                    &now,
                );
                self.cal_items = items;
                proof {
                    assert(now.wf() && is_range_result(
                        final(self)@.items,
                        t.events@,
                        t.calendars@,
                        t.locations@,
                        old(self)@.start_date,
                        old(self)@.end_date,
                        now,
                    ));
                }
                Ok(())
            },
            Err(e) => Err(e),
        }
    }

    /// Move the window's start earlier by the given number of weeks and
    /// refresh; a failed read leaves bounds and result set untouched.
    pub fn set_startdate_weeks_earlier<E>(
        &mut self,
        weeks: i64,
        fetched: Result<RawTables, E>,
    ) -> (r: Result<(), E>)
        requires
            old(self).wf(),
            DAYS_MIN <= old(self)@.start_date.num() - 7 * weeks,
            old(self)@.start_date.num() - 7 * weeks <= DAYS_MAX,
        ensures
            final(self).wf(),
            final(self)@.db_path == old(self)@.db_path,
            final(self)@.end_date == old(self)@.end_date,
            fetched is Err ==> (fetched matches Err(e) && r == Err::<(), E>(e) && *final(self)
                == *old(self)),
            fetched matches Ok(t) ==> r is Ok && final(self)@.start_date.num() == old(
                self,
            )@.start_date.num() - 7 * weeks && final(self)@.start_date == date_of_num(
                old(self)@.start_date.num() - 7 * weeks,
            ) && exists|now: DateTime|
                #[trigger] now.wf() && is_range_result(
                    final(self)@.items,
                    t.events@,
                    t.calendars@,
                    t.locations@,
                    final(self)@.start_date,
                    final(self)@.end_date,
                    now,
                ),
    {
        proof {
            lemma_num_in_range(old(self)@.start_date);
        }
        match fetched {
            Ok(t) => {
                let shift: i64 = 7 * weeks;
                let ns = date_add_days(&self.start_date, -shift);
                let now = now_local();
                let items = get_items(
                    &t.events,
                    &t.calendars,
                    &t.locations,
                    &ns,
                    &self.end_date,
                    &now,
                );
                self.start_date = ns;
                self.cal_items = items;
                proof {
                    assert(now.wf() && is_range_result(
                        final(self)@.items,
                        t.events@,
                        t.calendars@,
                        t.locations@,
                        final(self)@.start_date,
                        final(self)@.end_date,
                        now,
                    ));
                }
                Ok(())
            },
            Err(e) => Err(e),
        }
    }

    /// Move the window's end later by the given number of weeks and refresh;
    /// a failed read leaves bounds and result set untouched.
    pub fn set_enddate_weeks_later<E>(
        &mut self,
        weeks: i64,
        fetched: Result<RawTables, E>,
    ) -> (r: Result<(), E>)
        requires
            old(self).wf(),
            DAYS_MIN <= old(self)@.end_date.num() + 7 * weeks,
            old(self)@.end_date.num() + 7 * weeks <= DAYS_MAX,
        ensures
            final(self).wf(),
            final(self)@.db_path == old(self)@.db_path,
            final(self)@.start_date == old(self)@.start_date,
            fetched is Err ==> (fetched matches Err(e) && r == Err::<(), E>(e) && *final(self)
                == *old(self)),
            fetched matches Ok(t) ==> r is Ok && final(self)@.end_date.num() == old(
                self,
            )@.end_date.num() + 7 * weeks && final(self)@.end_date == date_of_num(
                old(self)@.end_date.num() + 7 * weeks,
            ) && exists|now: DateTime|
                #[trigger] now.wf() && is_range_result(
                    final(self)@.items,
                    t.events@,
                    t.calendars@,
                    t.locations@,
                    final(self)@.start_date,
                    final(self)@.end_date,
                    now,
                ),
    {
        proof {
            lemma_num_in_range(old(self)@.end_date);
        }
        match fetched {
            Ok(t) => {
                let shift: i64 = 7 * weeks;
                let ne = date_add_days(&self.end_date, shift);
                let now = now_local();
                let items = get_items(
                    &t.events,
                    &t.calendars,
                    &t.locations,
                    &self.start_date,
                    &ne,
                    &now,
                );
                self.end_date = ne;
                self.cal_items = items;
                proof {
                    assert(now.wf() && is_range_result(
                        final(self)@.items,
                        t.events@,
                        t.calendars@,
                        t.locations@,
                        final(self)@.start_date,
                        final(self)@.end_date,
                        now,
                    ));
                }
                Ok(())
            },
            Err(e) => Err(e),
        }
    }

    /// Recompute the default window around today — at call time, not
    /// creation time — and refresh; a failed read leaves the view untouched.
    pub fn set_default_start_end_dates<E>(&mut self, fetched: Result<RawTables, E>) -> (r:
        Result<(), E>)
        requires
            old(self).wf(),
        ensures
            final(self).wf(),
            final(self)@.db_path == old(self)@.db_path,
            fetched is Err ==> (fetched matches Err(e) && r == Err::<(), E>(e) && *final(self)
                == *old(self)),
            fetched matches Ok(t) ==> r is Ok && exists|now: DateTime|
                {
                    &&& #[trigger] now.wf()
                    &&& 1 <= now.year <= 9998
                    &&& is_default_window(
                        final(self)@.start_date,
                        final(self)@.end_date,
                        clock_date(now),
                    )
                    &&& is_range_result(
                        final(self)@.items,
                        t.events@,
                        t.calendars@,
                        t.locations@,
                        final(self)@.start_date,
                        final(self)@.end_date,
                        now,
                    )
                },
    {
        match fetched {
            Ok(t) => {
                let now = now_local();
                let today = Date { year: now.year, month: now.month, day: now.day };
                let (s, e) = default_window(&today);
                let items = get_items(&t.events, &t.calendars, &t.locations, &s, &e, &now);
                self.start_date = s;
                self.end_date = e;
                self.cal_items = items;
                proof {
                    assert(clock_date(now) == today);
                    assert(now.wf() && 1 <= now.year <= 9998 && is_default_window(
                        final(self)@.start_date,
                        final(self)@.end_date,
                        clock_date(now),
                    ) && is_range_result(
                        final(self)@.items,
                        t.events@,
                        t.calendars@,
                        t.locations@,
                        final(self)@.start_date,
                        final(self)@.end_date,
                        now,
                    ));
                }
                Ok(())
            },
            Err(e) => Err(e),
        }
    }

    pub fn db_path(&self) -> (r: &String)
        ensures
            r@ == self@.db_path,
    {
        &self.db_path
    }

    pub fn start_date(&self) -> (r: Date)
        ensures
            r == self@.start_date,
    {
        self.start_date
    }

    pub fn end_date(&self) -> (r: Date)
        ensures
            r == self@.end_date,
    {
        self.end_date
    }
}

} // verus!
