use vstd::prelude::*;
use vstd::arithmetic::div_mod::{
    lemma_fundamental_div_mod, lemma_fundamental_div_mod_converse_mod, lemma_mod_bound,
};
use crate::clock::{clock_val, duration_stop, Time};
use crate::date::{
    days_in_month, lemma_day_number_succ, max_date, succ_date, Date, MAX_YEAR,
};
use crate::parser::{
    day_from, day_of, duration_count, find_next_val, full_date_val, parse_line_val,
    start_time_val, stop_time_val, uses_duration_notation, without_month_val,
};
use crate::digits::{digit_val, is_digit};
use crate::render::{digit_char, time_colon_text};
use crate::text::word;
use crate::{Appointment, AppointmentView};

verus! {

// The bearing properties of the parser, stated once for all inputs and
// proved from the specifications the functions carry.

/// An appointment without an explicit year is never past, whatever date it
/// resolved to, whatever the day and the threshold: archiving can touch
/// only full dates.
pub proof fn lemma_recurring_never_past(a: Appointment, today: Date, threshold_days: u64)
    requires
        !a.appointment_is_full_date,
    ensures
        !a.is_past_spec(today, threshold_days),
{
}

/// Parsing is a function of the line and the reference date alone: two
/// parses of one line against one reference date agree field for field.
pub proof fn lemma_parse_deterministic(
    s: Seq<char>,
    refd: Date,
    r1: Option<AppointmentView>,
    r2: Option<AppointmentView>,
)
    requires
        r1 == parse_line_val(s, refd),
        r2 == parse_line_val(s, refd),
    ensures
        r1 == r2,
{
}

/// A stop time never stands without a start time.
pub proof fn lemma_stop_needs_start(s: Seq<char>, refd: Date)
    requires
        parse_line_val(s, refd) matches Some(a) && a.stop is Some,
    ensures
        parse_line_val(s, refd)->Some_0.start is Some,
{
}

/// An appointment marks itself as a full date exactly when the full-date
/// notation matched, whether or not the date itself could be built.
pub proof fn lemma_full_date_flag(s: Seq<char>, refd: Date)
    requires
        parse_line_val(s, refd) is Some,
    ensures
        parse_line_val(s, refd)->Some_0.is_full_date <==> full_date_val(s) is Some,
{
}

/// Every date a parse resolves denotes a real day of the calendar.
pub proof fn lemma_resolved_date_valid(s: Seq<char>, refd: Date)
    requires
        refd.wf(),
        parse_line_val(s, refd) matches Some(a) && a.date is Some,
    ensures
        parse_line_val(s, refd)->Some_0.date->Some_0.wf(),
{
    let a = parse_line_val(s, refd)->Some_0;
    if full_date_val(s) is Some {
    } else if without_month_val(s, refd) is Some {
        let k = day_of(word(s, 0)->Some_0)->Some_0;
        lemma_find_next_props(k, refd, 7);
    }
}

/// The description is never empty: a missing marker, or a marker that ends
/// the line, yields the placeholder text.
pub proof fn lemma_description_present(s: Seq<char>, refd: Date)
    requires
        parse_line_val(s, refd) is Some,
    ensures
        parse_line_val(s, refd)->Some_0.description.len() > 0,
{
    reveal_strlit(
        "Appointment contains no information (add 'msg' or 'rem' to the line to change that)",
    );
}

/// A digit character carries its own value.
proof fn lemma_digit_char_val(d: int)
    requires
        0 <= d <= 9,
    ensures
        is_digit(digit_char(d)),
        digit_val(digit_char(d)) == d,
{
}

/// Reading a rendered clock text back gives the written time: the parsed
/// value of `HH:MM` is exactly its hour and minute.
pub proof fn lemma_clock_round_trip(t: Time)
    requires
        t.wf(),
    ensures
        clock_val(time_colon_text(t), ':') == Some(t.as_minutes()),
{
    let s = time_colon_text(t);
    let h = t.hour as int;
    let m = t.minute as int;
    lemma_digit_char_val(h / 10);
    lemma_digit_char_val(h % 10);
    lemma_digit_char_val(m / 10);
    lemma_digit_char_val(m % 10);
    lemma_fundamental_div_mod(h, 10);
    lemma_fundamental_div_mod(m, 10);
    assert(s[0] == digit_char(h / 10) && s[1] == digit_char(h % 10) && s[2] == ':' && s[3]
        == digit_char(m / 10) && s[4] == digit_char(m % 10));
    assert(digit_char(h / 10) != ':' && digit_char(m / 10) != ':') by {
        lemma_mod_bound(h, 10);
        lemma_mod_bound(m, 10);
    }
}

/// The duration rule: a counted duration above eight is minutes, one of
/// eight or less is hours, and the stop time is the start plus that
/// offset, wrapping silently at midnight.
pub proof fn lemma_duration_stop_rule(s: Seq<char>, st: int, n: int)
    requires
        start_time_val(s) == Some(st),
        duration_count(s) == Some(n),
    ensures
        stop_time_val(s) == Some(duration_stop(st, n)),
        n > 8 ==> stop_time_val(s) == Some((st + n) % 1440),
        n <= 8 ==> stop_time_val(s) == Some((st + n * 60) % 1440),
{
}

/// A full-date line read with the duration notation yields exactly the
/// written start time, and a stop of start plus the counted duration —
/// minutes above eight, hours otherwise — wrapping at midnight.
pub proof fn lemma_full_date_duration(s: Seq<char>, st: int, n: int)
    requires
        full_date_val(s) is Some,
        uses_duration_notation(s),
        start_time_val(s) == Some(st),
        duration_count(s) == Some(n),
    ensures
        ({
            let a = full_date_val(s)->Some_0;
            &&& a.is_full_date
            &&& a.start == Some(st)
            &&& a.stop == Some(
                if n > 8 {
                    (st + n) % 1440
                } else {
                    (st + n * 60) % 1440
                },
            )
        }),
{
}

proof fn lemma_day_from_range(w: Seq<char>, j: int)
    requires
        0 <= j,
        day_from(w, j) is Some,
    ensures
        j <= day_from(w, j)->Some_0 < 7,
    decreases 7 - j,
{
    if j < 7 && day_from(w, j) != Some(j) {
        lemma_day_from_range(w, j + 1);
    }
}

/// What a found weekday resolution satisfies: the weekday matches, and the
/// date lies between the start and the reach of the fuel.
proof fn lemma_find_next_props(k: int, d: Date, fuel: nat)
    requires
        d.wf(),
        find_next_val(k, d, fuel) is Some,
    ensures
        ({
            let r = find_next_val(k, d, fuel)->Some_0;
            &&& r.wf()
            &&& r.weekday_index() == k
            &&& d.day_number() <= r.day_number() <= d.day_number() + fuel - 1
        }),
    decreases fuel,
{
    if fuel == 0 {
    } else if d.weekday_index() == k {
    } else {
        match succ_date(d) {
            Some(n) => {
                lemma_day_number_succ(d);
                lemma_find_next_props(k, n, (fuel - 1) as nat);
            },
            None => {},
        }
    }
}

/// Only the last representable date has no successor.
proof fn lemma_succ_exists(d: Date)
    requires
        d.wf(),
        d.day_number() < max_date().day_number(),
    ensures
        succ_date(d) is Some,
{
    if succ_date(d) is None {
        assert(d.month == 12 && d.year == MAX_YEAR);
        assert(days_in_month(MAX_YEAR as int, 12) == 31);
        assert(d == max_date());
    }
}

/// Stepping one day forward advances the weekday cyclically.
proof fn lemma_weekday_step(d: Date, n: Date)
    requires
        n.day_number() == d.day_number() + 1,
    ensures
        n.weekday_index() == if d.weekday_index() < 6 {
            d.weekday_index() + 1
        } else {
            0int
        },
{
    let dn = d.day_number();
    lemma_fundamental_div_mod(dn, 7);
    lemma_mod_bound(dn, 7);
    let q = dn / 7;
    let w = dn % 7;
    if w < 6 {
        lemma_fundamental_div_mod_converse_mod(dn + 1, 7, q, w + 1);
    } else {
        lemma_fundamental_div_mod_converse_mod(dn + 1, 7, q + 1, 0);
    }
}

/// Enough fuel to cover the cyclic distance always finds the weekday,
/// while the walk stays inside the representable range.
proof fn lemma_find_next_found(k: int, d: Date, fuel: nat)
    requires
        d.wf(),
        0 <= k < 7,
        ({
            let w = d.weekday_index();
            let delta: int = if k >= w {
                k - w
            } else {
                k - w + 7
            };
            fuel > delta && d.day_number() + delta <= max_date().day_number()
        }),
    ensures
        find_next_val(k, d, fuel) is Some,
    decreases fuel,
{
    lemma_mod_bound(d.day_number(), 7);
    if d.weekday_index() == k {
    } else {
        lemma_succ_exists(d);
        let n = succ_date(d)->Some_0;
        lemma_day_number_succ(d);
        lemma_weekday_step(d, n);
        lemma_mod_bound(n.day_number(), 7);
        lemma_find_next_found(k, n, (fuel - 1) as nat);
    }
}

/// A resolved weekday line names a date: its weekday is the one the first
/// word names, and it lies on or after the reference date, at most six
/// days later.
pub proof fn lemma_weekday_resolution(s: Seq<char>, refd: Date)
    requires
        refd.wf(),
        without_month_val(s, refd) is Some,
    ensures
        ({
            let a = without_month_val(s, refd)->Some_0;
            let k = day_of(word(s, 0)->Some_0)->Some_0;
            &&& a.date is Some
            &&& a.date->Some_0.weekday_index() == k
            &&& refd.day_number() <= a.date->Some_0.day_number() <= refd.day_number() + 6
        }),
{
    let k = day_of(word(s, 0)->Some_0)->Some_0;
    lemma_find_next_props(k, refd, 7);
}

/// A line whose first word names a weekday always resolves, as long as the
/// reference date lies at least six days before the end of the
/// representable range.
pub proof fn lemma_weekday_line_resolves(s: Seq<char>, refd: Date)
    requires
        refd.wf(),
        word(s, 0) is Some,
        day_of(word(s, 0)->Some_0) is Some,
        refd.day_number() + 6 <= max_date().day_number(),
    ensures
        without_month_val(s, refd) is Some,
{
    let k = day_of(word(s, 0)->Some_0)->Some_0;
    lemma_day_from_range(word(s, 0)->Some_0, 0);
    lemma_mod_bound(refd.day_number(), 7);
    lemma_find_next_found(k, refd, 7);
}

} // verus!
