pub mod clock;
pub mod date;
pub mod digits;
pub mod laws;
mod now;
pub mod parser;
pub mod render;
pub mod report;
pub mod text;

pub use clock::Time;
pub use date::Date;

use vstd::prelude::*;
use vstd::string::StringExecFns;

verus! {

// An appointment as the parser produces it: a resolved calendar date where
// one could be computed, the time range, the free-text description, and the
// literal date text kept for display.

/// The mathematical content of an appointment: times as minutes since
/// midnight, texts as character sequences.
pub struct AppointmentView {
    pub date: Option<date::Date>,
    pub is_full_date: bool,
    pub start: Option<int>,
    pub stop: Option<int>,
    pub description: Seq<char>,
    pub date_alt_text: Seq<char>,
}

/// One parsed appointment line.
#[derive(Debug, PartialEq)]
pub struct Appointment {
    pub appointment_date: Option<date::Date>,
    pub appointment_is_full_date: bool,
    pub appointment_start: Option<clock::Time>,
    pub appointment_stop: Option<clock::Time>,
    pub appointment_description: String,
    pub appointment_date_alt_text: String,
}

impl View for Appointment {
    type V = AppointmentView;

    open spec fn view(&self) -> AppointmentView {
        AppointmentView {
            date: self.appointment_date,
            is_full_date: self.appointment_is_full_date,
            start: clock::opt_minutes(self.appointment_start),
            stop: clock::opt_minutes(self.appointment_stop),
            description: self.appointment_description@,
            date_alt_text: self.appointment_date_alt_text@,
        }
    }
}

/// The view of an optional appointment.
pub open spec fn appt_opt_view(r: Option<Appointment>) -> Option<AppointmentView> {
    match r {
        Some(a) => Some(a@),
        None => None,
    }
}

impl Appointment {
    /// The date and the clock times, where present, denote real days and
    /// times.
    pub open spec fn wf(self) -> bool {
        &&& (self.appointment_date matches Some(d) ==> d.wf())
        &&& (self.appointment_start matches Some(t) ==> t.wf())
        &&& (self.appointment_stop matches Some(t) ==> t.wf())
    }

    /// When an appointment counts as past: only one with an explicit year
    /// and a computed date, whose date lies more than `threshold_days`
    /// before `today`.  Recurring appointments are never past.
    pub open spec fn is_past_spec(self, today: date::Date, threshold_days: u64) -> bool {
        self.appointment_is_full_date && match self.appointment_date {
            Some(d) => today.day_number() - threshold_days > d.day_number(),
            None => false,
        }
    }

    /// The time range as text: empty, `HH:MM`, or `HH:MM - HH:MM`.
    pub open spec fn get_time_text(self) -> Seq<char> {
        match self.appointment_start {
            None => Seq::empty(),
            Some(st) => match self.appointment_stop {
                None => render::time_colon_text(st),
                Some(sp) => render::time_colon_text(st) + seq![' ', '-', ' ']
                    + render::time_colon_text(sp),
            },
        }
    }

    /// The appointment's time range for display.
    pub fn get_time(&self) -> (r: String)
        requires
            self.wf(),
        ensures
            r@ == self.get_time_text(),
    {
        match self.appointment_start {
            None => String::new(),
            Some(st) => {
                let mut s = String::new();
                render::append_time(&mut s, st, true);
                match self.appointment_stop {
                    None => s,
                    Some(sp) => {
                        s.append(" - ");
                        render::append_time(&mut s, sp, true);
                        proof {
                            reveal_strlit(" - ");
                            assert(s@ =~= self.get_time_text());
                        }
                        s
                    },
                }
            },
        }
    }

    /// The line as it is written back to a reminder file: the date, the
    /// time range and the description for a full date, else the literal
    /// date text.
    pub open spec fn to_rrem_text(self) -> Seq<char> {
        if self.appointment_is_full_date {
            render::date_dmy_text(self.appointment_date->Some_0) + seq![' '] + self.get_time_text()
                + seq![',', ' '] + self.appointment_description@
        } else {
            self.appointment_date_alt_text@
        }
    }

    /// Renders the appointment as a reminder-file line.
    pub fn to_rrem_string(&self) -> (r: String)
        requires
            self.wf(),
            self.appointment_is_full_date ==> self.appointment_date is Some,
        ensures
            r@ == self.to_rrem_text(),
    {
        if self.appointment_is_full_date {
            let mut s = String::new();
            match &self.appointment_date {
                Some(d) => render::append_date_dmy(&mut s, d),
                None => {
                    proof {
                        assert(false);
                    }
                },
            }
            s.append(" ");
            let t = self.get_time();
            s.append(t.as_str());
            s.append(", ");
            s.append(self.appointment_description.as_str());
            proof {
                reveal_strlit(" ");
                reveal_strlit(", ");
                assert(s@ =~= self.to_rrem_text());
            }
            s
        } else {
            self.appointment_date_alt_text.clone()
        }
    }

    /// Is the appointment archivable as past, seen from `today`?
    pub fn is_past(&self, today: &date::Date, threshold_days: u64) -> (r: bool)
        requires
            today.wf(),
            self.wf(),
        ensures
            r == self.is_past_spec(*today, threshold_days),
    {
        if !self.appointment_is_full_date {
            return false;
        }
        match &self.appointment_date {
            Some(d) => {
                let dt = date::day_number_exec(today);
                let dd = date::day_number_exec(d);
                let diff = dt - dd;
                diff > 0 && (diff as u64) > threshold_days
            },
            None => false,
        }
    }
}

} // verus!
