use maccal::attendees::{AttendeeList, ParticipantRow};
use maccal::calendar_data::{filter_attendees, get_items, CalendarData, LookupRow, RawEventRow,
    RawTables};
use maccal::calendaritem::note_dirname;
use maccal::dates::{date_add_days, date_num, decode_end_timestamp, decode_start_timestamp,
    encode_end_timestamp, month_days, Date, DateTime};

use chrono::Datelike;

/// Native timestamp whose 31-year-shifted date is 2024-01-10: the Unix
/// seconds of 1993-01-10 00:00:00.
const NATIVE_2024_01_10: i64 = 726624000;

fn dt(year: i64, month: u8, day: u8, hour: u8, minute: u8, second: u8) -> DateTime {
    DateTime { year, month, day, hour, minute, second }
}

fn date(year: i64, month: u8, day: u8) -> Date {
    Date { year, month, day }
}

fn test_now() -> DateTime {
    dt(2030, 6, 15, 12, 0, 0)
}

fn raw_event(rowid: i64, start: i64, end: i64, summary: &str, all_day: i64) -> RawEventRow {
    RawEventRow {
        rowid: Some(rowid),
        calendar_id: Some(1),
        location_id: Some(1),
        start_date: Some(start),
        end_date: Some(end),
        summary: Some(summary.to_string()),
        description: Some(format!("about {summary}")),
        all_day: Some(all_day),
    }
}

fn lookups() -> (Vec<LookupRow>, Vec<LookupRow>) {
    let cals = vec![LookupRow { rowid: 1, title: Some("Home".to_string()) }];
    let locs = vec![LookupRow { rowid: 1, title: Some("Office".to_string()) }];
    (cals, locs)
}

/// A native timestamp for an event whose window date is today, derived
/// through the library's own encoder.
fn native_today() -> i64 {
    let today = chrono::Local::now().date_naive();
    let d = dt(today.year() as i64, today.month() as u8, today.day() as u8, 12, 0, 0);
    encode_end_timestamp(&d)
}

fn fixture_conn() -> rusqlite::Connection {
    let conn = rusqlite::Connection::open_in_memory().unwrap();
    conn.execute_batch(
        "CREATE TABLE CalendarItem (
            calendar_id INTEGER, location_id INTEGER,
            start_date INTEGER, end_date INTEGER,
            summary TEXT, description TEXT, all_day INTEGER);
         CREATE TABLE Calendar (title TEXT);
         CREATE TABLE Location (title TEXT);
         CREATE TABLE Participant (
            identity_id INTEGER, owner_id INTEGER,
            email TEXT, phone_number TEXT, status INTEGER);",
    )
    .unwrap();
    conn.execute("INSERT INTO Calendar (rowid, title) VALUES (1, 'Home')", []).unwrap();
    conn.execute("INSERT INTO Location (rowid, title) VALUES (1, 'Office')", []).unwrap();
    let t = native_today();
    conn.execute(
        "INSERT INTO CalendarItem (rowid, calendar_id, location_id, start_date, end_date,
            summary, description, all_day)
         VALUES (1, 1, 1, ?1, ?2, 'standup', 'daily sync', 0)",
        [t, t + 3600],
    )
    .unwrap();
    conn.execute(
        "INSERT INTO Participant (identity_id, owner_id, email, phone_number, status)
         VALUES (7, 1, 'a@example.com', '555-0100', 0)",
        [],
    )
    .unwrap();
    conn
}

fn read_tables(conn: &rusqlite::Connection) -> RawTables {
    let mut events = Vec::new();
    {
        let mut stmt = conn
            .prepare(
                "SELECT rowid, calendar_id, location_id, start_date, end_date,
                        summary, description, all_day
                 FROM CalendarItem",
            )
            .unwrap();
        let mut rows = stmt.query([]).unwrap();
        while let Some(row) = rows.next().unwrap() {
            events.push(RawEventRow {
                rowid: row.get(0).ok(),
                calendar_id: row.get(1).ok(),
                location_id: row.get(2).ok(),
                start_date: row.get(3).ok(),
                end_date: row.get(4).ok(),
                summary: row.get(5).ok(),
                description: row.get(6).ok(),
                all_day: row.get(7).ok(),
            });
        }
    }
    let mut calendars = Vec::new();
    {
        let mut stmt = conn.prepare("SELECT rowid, title FROM Calendar").unwrap();
        let mut rows = stmt.query([]).unwrap();
        while let Some(row) = rows.next().unwrap() {
            calendars.push(LookupRow { rowid: row.get(0).unwrap(), title: row.get(1).ok() });
        }
    }
    let mut locations = Vec::new();
    {
        let mut stmt = conn.prepare("SELECT rowid, title FROM Location").unwrap();
        let mut rows = stmt.query([]).unwrap();
        while let Some(row) = rows.next().unwrap() {
            locations.push(LookupRow { rowid: row.get(0).unwrap(), title: row.get(1).ok() });
        }
    }
    RawTables { events, calendars, locations }
}

fn read_participants(conn: &rusqlite::Connection) -> Vec<ParticipantRow> {
    let mut participants = Vec::new();
    let mut stmt = conn
        .prepare("SELECT identity_id, owner_id, email, phone_number, status FROM Participant")
        .unwrap();
    let mut rows = stmt.query([]).unwrap();
    while let Some(row) = rows.next().unwrap() {
        participants.push(ParticipantRow {
            identity_id: row.get(0).ok(),
            owner_id: row.get(1).ok(),
            email: row.get(2).ok(),
            phone_number: row.get(3).ok(),
            status: row.get(4).ok(),
        });
    }
    participants
}

#[test]
fn test_create_attendees() {
    let conn = fixture_conn();
    let tables = read_tables(&conn);
    let participants = read_participants(&conn);
    let caldata: CalendarData =
        CalendarData::new::<String>("fixture".to_string(), Ok(tables)).unwrap();
    for item in &caldata.cal_items {
        let _ = AttendeeList::new(&participants, item.rowid());
    }
}

#[test]
fn test_create_caldata() {
    let conn = fixture_conn();
    let caldata =
        CalendarData::new::<String>("fixture".to_string(), Ok(read_tables(&conn))).unwrap();
    assert!(caldata.cal_items.len() > 0);
}

#[test]
fn test_filter_attendees() {
    let conn = fixture_conn();
    let tables = read_tables(&conn);
    let participants = read_participants(&conn);
    let caldata =
        CalendarData::new::<String>("fixture".to_string(), Ok(read_tables(&conn))).unwrap();
    let filtered = filter_attendees(
        &tables.events,
        &tables.calendars,
        &tables.locations,
        &participants,
        7,
        &test_now(),
    );
    assert!(caldata.cal_items.len() > 0);
    assert!(filtered.len() > 0);
}

#[test]
fn test_end_translation_exact() {
    let d = decode_end_timestamp(NATIVE_2024_01_10).unwrap();
    assert_eq!(d, dt(2024, 1, 10, 0, 0, 0));
    let d2 = decode_end_timestamp(NATIVE_2024_01_10 + 3661).unwrap();
    assert_eq!(d2, dt(2024, 1, 10, 1, 1, 1));
}

#[test]
fn test_start_translation_has_extra_day() {
    let d = decode_start_timestamp(NATIVE_2024_01_10).unwrap();
    assert_eq!(d, dt(2024, 1, 11, 0, 0, 0));
}

#[test]
fn test_translation_out_of_range() {
    assert!(decode_end_timestamp(i64::MAX).is_none());
    assert!(decode_start_timestamp(i64::MIN).is_none());
}

#[test]
fn test_end_round_trip() {
    for t in [NATIVE_2024_01_10, 0, -1, 86399, 123456789] {
        let d = decode_end_timestamp(t).unwrap();
        assert_eq!(encode_end_timestamp(&d), t);
    }
}

#[test]
fn test_round_trip_excluded_leap_day() {
    // Unix 1996-02-29 normalises to 2027-03-01 under the 31-year shift, so
    // the round trip cannot reproduce it.
    let t = date_num(&date(1996, 2, 29)) * 86400;
    let d = decode_end_timestamp(t).unwrap();
    assert_eq!(d, dt(2027, 3, 1, 0, 0, 0));
    assert_ne!(encode_end_timestamp(&d), t);
}

#[test]
fn test_month_lengths() {
    assert_eq!(month_days(2024, 2), 29);
    assert_eq!(month_days(2023, 2), 28);
    assert_eq!(month_days(1900, 2), 28);
    assert_eq!(month_days(2000, 2), 29);
    assert_eq!(month_days(2024, 4), 30);
    assert_eq!(month_days(2024, 1), 31);
}

#[test]
fn test_date_arithmetic() {
    assert_eq!(date_add_days(&date(2024, 1, 10), -10), date(2023, 12, 31));
    assert_eq!(date_add_days(&date(2024, 2, 28), 1), date(2024, 2, 29));
    assert_eq!(date_add_days(&date(2023, 2, 28), 1), date(2023, 3, 1));
    assert_eq!(date_num(&date(1970, 1, 1)), 0);
    assert_eq!(date_num(&date(1993, 1, 10)), 8410);
}

#[test]
fn test_range_query_order_and_window() {
    let (cals, locs) = lookups();
    let events = vec![
        raw_event(3, NATIVE_2024_01_10 + 7200, NATIVE_2024_01_10 + 7200, "later", 0),
        raw_event(1, NATIVE_2024_01_10, NATIVE_2024_01_10, "allday", 1),
        raw_event(2, NATIVE_2024_01_10, NATIVE_2024_01_10, "timed", 0),
        raw_event(9, NATIVE_2024_01_10 + 40 * 86400, NATIVE_2024_01_10, "outside", 0),
    ];
    let items = get_items(
        &events,
        &cals,
        &locs,
        &date(2024, 1, 9),
        &date(2024, 1, 11),
        &test_now(),
    );
    // The out-of-window event is excluded; ties at the same start go by the
    // all-day flag ascending.
    assert_eq!(items.len(), 3);
    assert_eq!(items[0].rowid, 2);
    assert!(!items[0].all_day);
    assert_eq!(items[1].rowid, 1);
    assert!(items[1].all_day);
    assert_eq!(items[2].rowid, 3);
    assert_eq!(items[0].calendar, "Home");
    assert_eq!(items[0].location, "Office");
}

#[test]
fn test_end_to_end_window() {
    let conn = rusqlite::Connection::open_in_memory().unwrap();
    conn.execute_batch(
        "CREATE TABLE CalendarItem (
            calendar_id INTEGER, location_id INTEGER,
            start_date INTEGER, end_date INTEGER,
            summary TEXT, description TEXT, all_day INTEGER);
         CREATE TABLE Calendar (title TEXT);
         CREATE TABLE Location (title TEXT);",
    )
    .unwrap();
    conn.execute(
        "INSERT INTO CalendarItem (rowid, calendar_id, location_id, start_date, end_date,
            summary, description, all_day)
         VALUES (1, 1, 1, ?1, ?1, 'january event', '', 0)",
        [NATIVE_2024_01_10],
    )
    .unwrap();
    let tables = read_tables(&conn);
    let hit = get_items(
        &tables.events,
        &tables.calendars,
        &tables.locations,
        &date(2024, 1, 9),
        &date(2024, 1, 11),
        &test_now(),
    );
    assert_eq!(hit.len(), 1);
    assert_eq!(hit[0].summary, "january event");
    let miss = get_items(
        &tables.events,
        &tables.calendars,
        &tables.locations,
        &date(2024, 2, 1),
        &date(2024, 2, 28),
        &test_now(),
    );
    assert_eq!(miss.len(), 0);
}

#[test]
fn test_summary_default_keeps_row() {
    let (cals, locs) = lookups();
    let mut ev = raw_event(5, NATIVE_2024_01_10, NATIVE_2024_01_10, "x", 0);
    ev.summary = None;
    let items = get_items(
        &vec![ev],
        &cals,
        &locs,
        &date(2024, 1, 9),
        &date(2024, 1, 11),
        &test_now(),
    );
    assert_eq!(items.len(), 1);
    assert_eq!(items[0].summary, "<NA>");
    assert_eq!(items[0].rowid, 5);
    assert_eq!(items[0].calendar, "Home");
    assert_eq!(items[0].description, "about x");
    assert_eq!(items[0].start_date, dt(2024, 1, 11, 0, 0, 0));
}

#[test]
fn test_missing_lookup_defaults() {
    let (cals, locs) = lookups();
    let mut ev = raw_event(6, NATIVE_2024_01_10, NATIVE_2024_01_10, "y", 0);
    ev.calendar_id = Some(99);
    ev.location_id = None;
    let items = get_items(
        &vec![ev],
        &cals,
        &locs,
        &date(2024, 1, 9),
        &date(2024, 1, 11),
        &test_now(),
    );
    assert_eq!(items.len(), 1);
    assert_eq!(items[0].calendar, "<NA>");
    assert_eq!(items[0].location, "<NA>");
}

#[test]
fn test_bad_timestamp_defaults_to_now() {
    let (cals, locs) = lookups();
    let mut ev = raw_event(8, NATIVE_2024_01_10, NATIVE_2024_01_10, "z", 0);
    ev.end_date = Some(i64::MAX);
    let participants = vec![ParticipantRow {
        identity_id: Some(4),
        owner_id: Some(8),
        email: None,
        phone_number: None,
        status: None,
    }];
    let items = filter_attendees(&vec![ev], &cals, &locs, &participants, 4, &test_now());
    assert_eq!(items.len(), 1);
    assert_eq!(items[0].end_date, test_now());
    assert_eq!(items[0].start_date, dt(2024, 1, 11, 0, 0, 0));
}

#[test]
fn test_attendee_descending_and_dedup() {
    let (cals, locs) = lookups();
    let events = vec![
        raw_event(1, NATIVE_2024_01_10, NATIVE_2024_01_10, "early", 0),
        raw_event(2, NATIVE_2024_01_10 + 5 * 86400, NATIVE_2024_01_10, "late", 0),
    ];
    let participants = vec![
        ParticipantRow {
            identity_id: Some(7),
            owner_id: Some(1),
            email: Some("a@example.com".to_string()),
            phone_number: None,
            status: Some(1),
        },
        ParticipantRow {
            identity_id: Some(7),
            owner_id: Some(1),
            email: Some("b@example.com".to_string()),
            phone_number: None,
            status: Some(1),
        },
        ParticipantRow {
            identity_id: Some(7),
            owner_id: Some(2),
            email: Some("a@example.com".to_string()),
            phone_number: None,
            status: Some(1),
        },
    ];
    let items = filter_attendees(&events, &cals, &locs, &participants, 7, &test_now());
    // Event 1 appears once even though two participant rows name it.
    assert_eq!(items.len(), 2);
    assert_eq!(items[0].rowid, 2);
    assert_eq!(items[1].rowid, 1);
}

#[test]
fn test_attendee_without_events_is_empty() {
    let (cals, locs) = lookups();
    let events = vec![raw_event(1, NATIVE_2024_01_10, NATIVE_2024_01_10, "e", 0)];
    let participants = vec![ParticipantRow {
        identity_id: Some(7),
        owner_id: Some(1),
        email: None,
        phone_number: None,
        status: None,
    }];
    let items = filter_attendees(&events, &cals, &locs, &participants, 12345, &test_now());
    assert!(items.is_empty());
}

#[test]
fn test_attendee_list_decode() {
    let participants = vec![
        ParticipantRow {
            identity_id: Some(7),
            owner_id: Some(3),
            email: None,
            phone_number: Some("555-0100".to_string()),
            status: Some(2),
        },
        ParticipantRow {
            identity_id: None,
            owner_id: Some(4),
            email: Some("other@example.com".to_string()),
            phone_number: None,
            status: None,
        },
    ];
    let list = AttendeeList::new(&participants, 3);
    assert_eq!(list.attendees.len(), 1);
    assert_eq!(*list.attendees[0].id(), 7);
    assert_eq!(list.attendees[0].email, "<NA>");
    assert_eq!(list.attendees[0].phone_number, "555-0100");
    assert_eq!(list.attendees[0].status, 2);
    let none = AttendeeList::new(&participants, 99);
    assert!(none.attendees.is_empty());
}

#[test]
fn test_default_window_and_mutations() {
    let conn = fixture_conn();
    let mut caldata =
        CalendarData::new::<String>("fixture".to_string(), Ok(read_tables(&conn))).unwrap();
    let s0 = date_num(&caldata.start_date());
    let e0 = date_num(&caldata.end_date());
    // Yesterday through 12 weeks ahead: 1 + 84 days.
    assert_eq!(e0 - s0, 85);
    assert!(caldata.cal_items.len() > 0);

    caldata.set_startdate_weeks_earlier::<String>(2, Ok(read_tables(&conn))).unwrap();
    assert_eq!(date_num(&caldata.start_date()), s0 - 14);
    assert_eq!(date_num(&caldata.end_date()), e0);

    caldata.set_enddate_weeks_later::<String>(3, Ok(read_tables(&conn))).unwrap();
    assert_eq!(date_num(&caldata.end_date()), e0 + 21);

    caldata.set_default_start_end_dates::<String>(Ok(read_tables(&conn))).unwrap();
    let s1 = date_num(&caldata.start_date());
    let e1 = date_num(&caldata.end_date());
    assert_eq!(e1 - s1, 85);
    // The reset recomputes around today, so the start is back at (or just
    // past) its original place however the window was moved before.
    assert!(s1 >= s0);
    assert!(caldata.cal_items.len() > 0);
}

#[test]
fn test_refresh_reruns_query() {
    let conn = fixture_conn();
    let mut caldata =
        CalendarData::new::<String>("fixture".to_string(), Ok(read_tables(&conn))).unwrap();
    let before = caldata.cal_items.len();
    conn.execute(
        "INSERT INTO CalendarItem (rowid, calendar_id, location_id, start_date, end_date,
            summary, description, all_day)
         VALUES (2, 1, 1, ?1, ?1, 'added', '', 0)",
        [native_today() + 60],
    )
    .unwrap();
    caldata.refresh::<String>(Ok(read_tables(&conn))).unwrap();
    assert_eq!(caldata.cal_items.len(), before + 1);
}

#[test]
fn test_failed_refresh_is_atomic() {
    let conn = fixture_conn();
    let mut caldata =
        CalendarData::new::<String>("fixture".to_string(), Ok(read_tables(&conn))).unwrap();
    let s0 = caldata.start_date();
    let e0 = caldata.end_date();
    let n0 = caldata.cal_items.len();

    let r = caldata.refresh::<String>(Err("no such file".to_string()));
    assert_eq!(r, Err("no such file".to_string()));
    let r = caldata.set_startdate_weeks_earlier::<String>(2, Err("gone".to_string()));
    assert_eq!(r, Err("gone".to_string()));
    let r = caldata.set_enddate_weeks_later::<String>(2, Err("gone".to_string()));
    assert_eq!(r, Err("gone".to_string()));
    let r = caldata.set_default_start_end_dates::<String>(Err("gone".to_string()));
    assert_eq!(r, Err("gone".to_string()));

    assert_eq!(caldata.start_date(), s0);
    assert_eq!(caldata.end_date(), e0);
    assert_eq!(caldata.cal_items.len(), n0);
}

#[test]
fn test_new_fails_on_bad_read() {
    let r = CalendarData::new::<String>("missing".to_string(), Err("cannot open".to_string()));
    assert!(r.is_err());
}

#[test]
fn test_db_path_kept() {
    let conn = fixture_conn();
    let caldata =
        CalendarData::new::<String>("fixture".to_string(), Ok(read_tables(&conn))).unwrap();
    assert_eq!(caldata.db_path().as_str(), "fixture");
}

#[test]
fn test_note_dirname_format() {
    assert_eq!(
        note_dirname(&dt(2024, 1, 11, 9, 5, 0), &"standup".to_string()),
        "2024-01-11-09_05-standup"
    );
    assert_eq!(note_dirname(&dt(-1, 2, 3, 4, 5, 0), &"x".to_string()), "-0001-02-03-04_05-x");
    assert_eq!(note_dirname(&dt(10000, 12, 31, 23, 59, 0), &"".to_string()), "10000-12-31-23_59-");
}

#[test]
fn test_dirname_and_notename() {
    let conn = fixture_conn();
    let caldata =
        CalendarData::new::<String>("fixture".to_string(), Ok(read_tables(&conn))).unwrap();
    let item = &caldata.cal_items[0];
    let d = item.dirname();
    let n = item.notename();
    assert_eq!(n, format!("{d}.md"));
    assert!(d.ends_with("-standup"));
}

#[test]
fn test_local_rendering_is_valid() {
    let conn = fixture_conn();
    let caldata =
        CalendarData::new::<String>("fixture".to_string(), Ok(read_tables(&conn))).unwrap();
    for item in &caldata.cal_items {
        let s = item.start_date_from_utc();
        let e = item.end_date_from_utc();
        for d in [s, e] {
            assert!((1..=12).contains(&d.month));
            assert!((1..=31).contains(&d.day));
            assert!(d.hour < 24 && d.minute < 60 && d.second < 60);
        }
        // The zone offset moves the rendered value by less than a day.
        assert!((item.start_date.year - s.year).abs() <= 1);
    }
}
