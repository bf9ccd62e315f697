use vstd::prelude::*;
use chrono::Datelike;
use crate::date::Date;

verus! {

/// Relies on chrono's `Local::now().date_naive()`: the clock's current
/// civil date, whose year, month and day always denote a real day of the
/// proleptic Gregorian calendar, with the year inside chrono's
/// representable range, which equals this crate's.
#[verifier::external_body]
pub(crate) fn today_from_clock() -> (r: Date)
    ensures
        r.wf(),
{
    let d = chrono::offset::Local::now().date_naive();
    Date { year: d.year(), month: d.month() as u8, day: d.day() as u8 }
}

} // verus!
