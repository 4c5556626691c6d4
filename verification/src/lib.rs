//! Read-only views over a calendar application's database: translation of
//! its native epoch/offset timestamp encoding into calendar date-times,
//! window-bounded and attendee-bounded queries over raw table rows, and a
//! mutable viewport that slides or resets the observed date range.
//!
//! Opening and reading the database file is input/output and belongs to the
//! caller, who hands the raw rows in; everything the queries mean — joins,
//! translation, filtering, ordering, decode defaults — is carried out and
//! specified here.

pub mod attendees;
pub mod calendar_data;
pub mod calendaritem;
pub mod dates;
