//! Participant records of a calendar event.

use vstd::prelude::*;

use crate::calendar_data::{id_or_zero, lemma_filter_push, lemma_map_values_push, str_or_na};

verus! {

/// One raw row of the participant table.  `None` stands for a column that
/// was absent or could not be read with its expected type.
pub struct ParticipantRow {
    pub identity_id: Option<i64>,
    pub owner_id: Option<i64>,
    pub email: Option<String>,
    pub phone_number: Option<String>,
    pub status: Option<i64>,
}

/// One participant record.  String fields the row could not supply hold the
/// `"<NA>"` placeholder; the status code is opaque to this layer.
#[derive(Debug, Clone)]
pub struct Attendee {
    identity_id: u32,
    pub email: String,
    pub phone_number: String,
    pub status: u32,
}

/// The mathematical value of an `Attendee`.
pub ghost struct AttendeeView {
    pub identity_id: u32,
    pub email: Seq<char>,
    pub phone_number: Seq<char>,
    pub status: u32,
}

impl View for Attendee {
    type V = AttendeeView;

    closed spec fn view(&self) -> AttendeeView {
        AttendeeView {
            identity_id: self.identity_id,
            email: self.email@,
            phone_number: self.phone_number@,
            status: self.status,
        }
    }
}

impl Attendee {
    pub fn id(&self) -> (r: &u32)
        ensures
            *r == self@.identity_id,
    {
        &self.identity_id
    }
}

/// The value a raw participant row decodes to, field by field with the
/// decode-or-default policy.
pub open spec fn decode_attendee(p: ParticipantRow) -> AttendeeView {
    AttendeeView {
        identity_id: id_or_zero(p.identity_id),
        email: str_or_na(p.email),
        phone_number: str_or_na(p.phone_number),
        status: id_or_zero(p.status),
    }
}

/// Whether a participant row belongs to the event with the given row id.
pub open spec fn owned_by(p: ParticipantRow, rowid: u32) -> bool {
    p.owner_id == Some(rowid as i64)
}

pub open spec fn owner_pred(rowid: u32) -> spec_fn(ParticipantRow) -> bool {
    |p: ParticipantRow| owned_by(p, rowid)
}

pub open spec fn attendee_decoder() -> spec_fn(ParticipantRow) -> AttendeeView {
    |p: ParticipantRow| decode_attendee(p)
}

pub open spec fn attendee_views(s: Seq<Attendee>) -> Seq<AttendeeView> {
    s.map_values(|a: Attendee| a@)
}

fn decode_attendee_row(p: &ParticipantRow) -> (a: Attendee)
    ensures
        a@ == decode_attendee(*p),
{
    Attendee {
        identity_id: match p.identity_id {
            Some(v) => if 0 <= v && v <= u32::MAX as i64 {
                v as u32
            } else {
                0
            },
            None => 0,
        },
        email: match &p.email {
            Some(s) => s.clone(),
            None => String::from_str("<NA>"),
        },
        phone_number: match &p.phone_number {
            Some(s) => s.clone(),
            None => String::from_str("<NA>"),
        },
        status: match p.status {
            Some(v) => if 0 <= v && v <= u32::MAX as i64 {
                v as u32
            } else {
                0
            },
            None => 0,
        },
    }
}

/// The participants of one event.
#[derive(Debug, Clone)]
pub struct AttendeeList {
    pub attendees: Vec<Attendee>,
}

impl AttendeeList {
    /// The attendee records of the event with the given row id: exactly the
    /// participant rows owned by that event, decoded field by field, in row
    /// order.
    pub fn new(participants: &Vec<ParticipantRow>, rowid: u32) -> (r: AttendeeList)
        ensures
            attendee_views(r.attendees@) == participants@.filter(owner_pred(rowid)).map_values(
                attendee_decoder(),
            ),
    {
        let ghost pred = owner_pred(rowid);
        let ghost dec = attendee_decoder();
        let mut attendees: Vec<Attendee> = Vec::new();
        proof {
            assert(participants@.take(0).filter(pred) =~= Seq::<ParticipantRow>::empty());
            assert(attendee_views(attendees@) =~= Seq::<ParticipantRow>::empty().filter(
                pred,
            ).map_values(dec));
        }
        let n = participants.len();
        let mut i: usize = 0;
        while i < n
            invariant
                i <= n,
                n == participants@.len(),
                pred == owner_pred(rowid),
                dec == attendee_decoder(),
                attendee_views(attendees@) == participants@.take(i as int).filter(
                    pred,
                ).map_values(dec),
            decreases n - i,
        {
            let ghost taken = participants@.take(i as int);
            let ghost pv = participants@[i as int];
            proof {
                assert(participants@.take(i as int + 1) =~= taken.push(pv));
                lemma_filter_push(taken, pv, pred);
            }
            let p = &participants[i];
            let matches_owner = match p.owner_id {
                Some(v) => {
                    let r64 = rowid as i64;
                    v == r64
                },
                None => false,
            };
            if matches_owner {
                let ghost prev = attendees@;
                let a = decode_attendee_row(p);
                attendees.push(a);
                proof {
                    assert(pred(pv));
                    lemma_map_values_push(taken.filter(pred), pv, dec);
                    lemma_map_values_push(prev, a, |x: Attendee| x@);
                    assert(dec(pv) == a@);
                    assert(attendee_views(attendees@) =~= attendee_views(prev).push(a@));
                    assert(attendee_views(attendees@) =~= participants@.take(
                        i as int + 1,
                    ).filter(pred).map_values(dec));
                }
            } else {
                proof {
                    assert(!pred(pv));
                }
            }
            i += 1;
        }
        proof {
            assert(participants@.take(n as int) =~= participants@);
        }
        AttendeeList { attendees }
    }
}

} // verus!
