use vstd::prelude::*;
use vstd::string::{StrSliceExecFns, StringExecFns};
use crate::clock::{
    add_duration, clock_val, duration_stop, opt_minutes, parse_clock, sep_for, Time,
};
use crate::date::{date_from_ymd, make_date, next_day_opt, succ_date, weekday_of, Date};
use crate::digits::{
    digit_run_end, digits_range_val, digits_val, lemma_digit_run_bounds, lemma_digits_val_two,
    parse_i32_exec, parse_i32_spec, parse_i64_exec, parse_i64_spec, parse_u64_exec, parse_u64_spec,
    scan_digits,
};
use crate::now::today_from_clock;
use crate::text::{
    between_val, chars_of, contains_char, contains_char_exec, find, find_sub, lemma_find_props,
    lemma_next_non_ws_bounds, lower, next_non_ws, scan_non_ws, starts_with, starts_with_exec,
    sub_vec, to_lower_vec, trim_exec, word, word_span_exec,
};
use crate::{appt_opt_view, Appointment, AppointmentView};

verus! {

// The line notation's fixed marker tokens, as transparent character
// sequences, and the month and weekday abbreviation tables.

pub open spec fn at_marker() -> Seq<char> {
    seq![' ', 'a', 't', ' ']
}

pub open spec fn duration_marker() -> Seq<char> {
    seq![' ', 'd', 'u', 'r', 'a', 't', 'i', 'o', 'n', ' ']
}

pub open spec fn msg_marker() -> Seq<char> {
    seq![' ', 'm', 's', 'g', ' ']
}

pub open spec fn rem_marker() -> Seq<char> {
    seq![' ', 'r', 'e', 'm', ' ']
}

pub open spec fn comma_marker() -> Seq<char> {
    seq![',', ' ']
}

pub open spec fn space_marker() -> Seq<char> {
    seq![' ']
}

fn push3(a: char, b: char, c: char) -> (v: Vec<char>)
    ensures
        v@ == seq![a, b, c],
{
    let mut v: Vec<char> = Vec::new();
    v.push(a);
    v.push(b);
    v.push(c);
    proof {
        assert(v@ =~= seq![a, b, c]);
    }
    v
}

fn at_marker_vec() -> (v: Vec<char>)
    ensures
        v@ == at_marker(),
{
    let mut v: Vec<char> = Vec::new();
    v.push(' ');
    v.push('a');
    v.push('t');
    v.push(' ');
    proof {
        assert(v@ =~= at_marker());
    }
    v
}

fn duration_marker_vec() -> (v: Vec<char>)
    ensures
        v@ == duration_marker(),
{
    let mut v: Vec<char> = Vec::new();
    v.push(' ');
    v.push('d');
    v.push('u');
    v.push('r');
    v.push('a');
    v.push('t');
    v.push('i');
    v.push('o');
    v.push('n');
    v.push(' ');
    proof {
        assert(v@ =~= duration_marker());
    }
    v
}

fn space_marker_vec() -> (v: Vec<char>)
    ensures
        v@ == space_marker(),
{
    let mut v: Vec<char> = Vec::new();
    v.push(' ');
    proof {
        assert(v@ =~= space_marker());
    }
    v
}

/// The three-letter month abbreviations, in calendar order.
pub open spec fn month_prefix(k: int) -> Seq<char> {
    if k == 0 {
        seq!['j', 'a', 'n']
    } else if k == 1 {
        seq!['f', 'e', 'b']
    } else if k == 2 {
        seq!['m', 'a', 'r']
    } else if k == 3 {
        seq!['a', 'p', 'r']
    } else if k == 4 {
        seq!['m', 'a', 'y']
    } else if k == 5 {
        seq!['j', 'u', 'n']
    } else if k == 6 {
        seq!['j', 'u', 'l']
    } else if k == 7 {
        seq!['a', 'u', 'g']
    } else if k == 8 {
        seq!['s', 'e', 'p']
    } else if k == 9 {
        seq!['o', 'c', 't']
    } else if k == 10 {
        seq!['n', 'o', 'v']
    } else {
        seq!['d', 'e', 'c']
    }
}

/// The three-letter weekday abbreviations, Monday first.
pub open spec fn day_prefix(k: int) -> Seq<char> {
    if k == 0 {
        seq!['m', 'o', 'n']
    } else if k == 1 {
        seq!['t', 'u', 'e']
    } else if k == 2 {
        seq!['w', 'e', 'd']
    } else if k == 3 {
        seq!['t', 'h', 'u']
    } else if k == 4 {
        seq!['f', 'r', 'i']
    } else if k == 5 {
        seq!['s', 'a', 't']
    } else {
        seq!['s', 'u', 'n']
    }
}

fn month_prefix_vec(k: usize) -> (v: Vec<char>)
    requires
        k < 12,
    ensures
        v@ == month_prefix(k as int),
{
    if k == 0 {
        push3('j', 'a', 'n')
    } else if k == 1 {
        push3('f', 'e', 'b')
    } else if k == 2 {
        push3('m', 'a', 'r')
    } else if k == 3 {
        push3('a', 'p', 'r')
    } else if k == 4 {
        push3('m', 'a', 'y')
    } else if k == 5 {
        push3('j', 'u', 'n')
    } else if k == 6 {
        push3('j', 'u', 'l')
    } else if k == 7 {
        push3('a', 'u', 'g')
    } else if k == 8 {
        push3('s', 'e', 'p')
    } else if k == 9 {
        push3('o', 'c', 't')
    } else if k == 10 {
        push3('n', 'o', 'v')
    } else {
        push3('d', 'e', 'c')
    }
}

fn day_prefix_vec(k: usize) -> (v: Vec<char>)
    requires
        k < 7,
    ensures
        v@ == day_prefix(k as int),
{
    if k == 0 {
        push3('m', 'o', 'n')
    } else if k == 1 {
        push3('t', 'u', 'e')
    } else if k == 2 {
        push3('w', 'e', 'd')
    } else if k == 3 {
        push3('t', 'h', 'u')
    } else if k == 4 {
        push3('f', 'r', 'i')
    } else if k == 5 {
        push3('s', 'a', 't')
    } else {
        push3('s', 'u', 'n')
    }
}

/// The first month whose abbreviation begins the word, case folded,
/// starting the search at month `k`.
pub open spec fn month_from(w: Seq<char>, k: int) -> Option<int>
    decreases 12 - k,
{
    if k < 0 || k >= 12 {
        None
    } else if starts_with(lower(w), month_prefix(k)) {
        Some(k)
    } else {
        month_from(w, k + 1)
    }
}

/// The month (0 is January) whose abbreviation begins the word, if any.
pub open spec fn month_of(w: Seq<char>) -> Option<int> {
    month_from(w, 0)
}

/// The first weekday whose abbreviation begins the word, case folded,
/// starting the search at weekday `k`.
pub open spec fn day_from(w: Seq<char>, k: int) -> Option<int>
    decreases 7 - k,
{
    if k < 0 || k >= 7 {
        None
    } else if starts_with(lower(w), day_prefix(k)) {
        Some(k)
    } else {
        day_from(w, k + 1)
    }
}

/// The weekday (0 is Monday) whose abbreviation begins the word, if any.
pub open spec fn day_of(w: Seq<char>) -> Option<int> {
    day_from(w, 0)
}

/// The month that begins the word: 0 is January through 11 is December.
pub(crate) fn month_of_exec(w: &Vec<char>) -> (r: Option<u8>)
    ensures
        match r {
            Some(k) => k < 12 && month_of(w@) == Some(k as int),
            None => month_of(w@) is None,
        },
{
    let lw = to_lower_vec(w);
    let mut k: usize = 0;
    while k < 12
        invariant
            k <= 12,
            lw@ == lower(w@),
            month_of(w@) == month_from(w@, k as int),
        decreases 12 - k,
    {
        let p = month_prefix_vec(k);
        if starts_with_exec(&lw, &p) {
            return Some(k as u8);
        }
        k = k + 1;
    }
    None
}

/// The weekday that begins the word: 0 is Monday through 6 is Sunday.
pub(crate) fn day_of_exec(w: &Vec<char>) -> (r: Option<u8>)
    ensures
        match r {
            Some(k) => k < 7 && day_of(w@) == Some(k as int),
            None => day_of(w@) is None,
        },
{
    let lw = to_lower_vec(w);
    let mut k: usize = 0;
    while k < 7
        invariant
            k <= 7,
            lw@ == lower(w@),
            day_of(w@) == day_from(w@, k as int),
        decreases 7 - k,
    {
        let p = day_prefix_vec(k);
        if starts_with_exec(&lw, &p) {
            return Some(k as u8);
        }
        k = k + 1;
    }
    None
}

/// Does the word begin with a month abbreviation, in any casing?
pub fn is_month(month: &str) -> (r: bool)
    ensures
        r == (month_of(month@) is Some),
{
    let v = chars_of(month);
    month_of_exec(&v).is_some()
}

/// The month number (1 is January) when its abbreviation begins the word.
pub fn get_month_as_no(month: &str) -> (r: Option<usize>)
    ensures
        match r {
            Some(n) => 1 <= n <= 12 && month_of(month@) == Some(n - 1),
            None => month_of(month@) is None,
        },
{
    let v = chars_of(month);
    match month_of_exec(&v) {
        Some(k) => Some((k + 1) as usize),
        None => None,
    }
}

/// Does the word begin with a weekday abbreviation, in any casing?
pub fn is_day(weekday_name: &str) -> (r: bool)
    ensures
        r == (day_of(weekday_name@) is Some),
{
    let v = chars_of(weekday_name);
    day_of_exec(&v).is_some()
}

// ---------- description and date text ----------

/// The placeholder description of a line without a marker keyword.
pub open spec fn no_info() -> Seq<char> {
    "Appointment contains no information (add 'msg' or 'rem' to the line to change that)"@
}

/// The views of a vector of string slices.
pub open spec fn str_views(sps: Seq<&str>) -> Seq<Seq<char>> {
    sps.map_values(|t: &str| t@)
}

/// What stands right of the first splitter that occurs in the line; the
/// splitters are tried in the given order against the case-folded line,
/// while the result keeps the line's own casing.
pub open spec fn right_from_val(s: Seq<char>, sps: Seq<Seq<char>>) -> Option<Seq<char>>
    decreases sps.len(),
{
    if sps.len() == 0 {
        None
    } else {
        match find(lower(s), sps[0]) {
            Some(i) => Some(s.subrange(i + sps[0].len(), s.len() as int)),
            None => right_from_val(s, sps.drop_first()),
        }
    }
}

/// The markers that may introduce a description.
pub open spec fn description_markers() -> Seq<Seq<char>> {
    seq![msg_marker(), rem_marker(), comma_marker()]
}

/// The description of a line: the text after the first marker, or the
/// placeholder when no marker occurs or nothing follows the marker — the
/// description is never empty.
pub open spec fn description_val(s: Seq<char>) -> Seq<char> {
    match right_from_val(s, description_markers()) {
        Some(d) => if d.len() == 0 {
            no_info()
        } else {
            d
        },
        None => no_info(),
    }
}

/// The date text of a line: what stands before the time marker, trimmed, or
/// the whole line when there is no time marker.
pub open spec fn datum_text_val(s: Seq<char>) -> Seq<char> {
    match find(lower(s), at_marker()) {
        Some(i) => crate::text::trim(s.subrange(0, i)),
        None => s,
    }
}

/// The text right of the first of the `splitters` that occurs in `line`,
/// searched case-insensitively.
pub fn get_right_from(line: &str, splitters: Vec<&str>) -> (r: Option<String>)
    ensures
        match r {
            Some(s) => right_from_val(line@, str_views(splitters@)) == Some(s@),
            None => right_from_val(line@, str_views(splitters@)) is None,
        },
{
    let v = chars_of(line);
    let low = to_lower_vec(&v);
    let n = v.len();
    let mut k: usize = 0;
    proof {
        assert(str_views(splitters@).skip(0) =~= str_views(splitters@));
    }
    while k < splitters.len()
        invariant
            k <= splitters@.len(),
            v@ == line@,
            low@ == lower(line@),
            n == v@.len(),
            right_from_val(line@, str_views(splitters@)) == right_from_val(
                line@,
                str_views(splitters@).skip(k as int),
            ),
        decreases splitters@.len() - k,
    {
        let sp: &str = splitters[k];
        let spv = chars_of(sp);
        proof {
            assert(str_views(splitters@).skip(k as int)[0] == sp@);
        }
        match find_sub(&low, &spv) {
            Some(i) => {
                proof {
                    lemma_find_props(lower(line@), sp@);
                }
                let res = line.substring_char(i + spv.len(), n);
                return Some(String::from_str(res));
            },
            None => {
                proof {
                    assert(str_views(splitters@).skip(k as int).drop_first() =~= str_views(
                        splitters@,
                    ).skip(k + 1));
                }
                k = k + 1;
            },
        }
    }
    proof {
        assert(str_views(splitters@).skip(k as int) =~= Seq::<Seq<char>>::empty());
    }
    None
}

/// The description of the line: introduced by `msg`, `rem` or a comma, or
/// the fixed placeholder text.
pub fn extract_description(line: &str) -> (r: String)
    ensures
        r@ == description_val(line@),
{
    let mut sps: Vec<&str> = Vec::new();
    sps.push(" msg ");
    sps.push(" rem ");
    sps.push(", ");
    proof {
        reveal_strlit(" msg ");
        reveal_strlit(" rem ");
        reveal_strlit(", ");
        assert(" msg "@ =~= msg_marker());
        assert(" rem "@ =~= rem_marker());
        assert(", "@ =~= comma_marker());
        assert(str_views(sps@) =~~= description_markers());
    }
    match get_right_from(line, sps) {
        Some(s) => {
            if s.as_str().is_empty() {
                String::from_str(
                    "Appointment contains no information (add 'msg' or 'rem' to the line to change that)",
                )
            } else {
                s
            }
        },
        None => String::from_str(
            "Appointment contains no information (add 'msg' or 'rem' to the line to change that)",
        ),
    }
}

/// The date text of the line, for display when no date could be computed.
pub fn extract_datum_text(line: &str) -> (r: String)
    ensures
        r@ == datum_text_val(line@),
{
    let v = chars_of(line);
    let low = to_lower_vec(&v);
    let am = at_marker_vec();
    match find_sub(&low, &am) {
        Some(i) => {
            proof {
                lemma_find_props(lower(line@), at_marker());
            }
            let w = sub_vec(&v, 0, i);
            let (a, b) = trim_exec(&w);
            proof {
                assert(line@.subrange(a as int, b as int) =~= w@.subrange(a as int, b as int));
            }
            String::from_str(line.substring_char(a, b))
        },
        None => String::from_str(line),
    }
}

/// A trailing comma on a token is dropped, so that a day like `24,` reads
/// as `24`.
pub fn strip_final_comma(get: &str) -> (r: &str)
    ensures
        r@ == strip_final_comma_val(get@),
{
    let n = get.unicode_len();
    if n > 0 && get.get_char(n - 1) == ',' {
        let r = get.substring_char(0, n - 1);
        proof {
            assert(get@.subrange(0, n - 1) =~= get@.drop_last());
        }
        r
    } else {
        get
    }
}

/// The token with a final comma removed.
pub open spec fn strip_final_comma_val(w: Seq<char>) -> Seq<char> {
    if w.len() > 0 && w.last() == ',' {
        w.drop_last()
    } else {
        w
    }
}

/// The clock format of a time text: colon-separated when a colon occurs in
/// it, else dot-separated.
pub fn get_time_parser(s_in: &str) -> (r: String)
    ensures
        contains_char(s_in@, ':') ==> r@ == "%H:%M"@,
        !contains_char(s_in@, ':') ==> r@ == "%H.%M"@,
{
    let v = chars_of(s_in);
    if contains_char_exec(&v, ':') {
        String::from_str("%H:%M")
    } else {
        String::from_str("%H.%M")
    }
}

// ---------- time range extraction ----------

pub open spec fn dash_seq() -> Seq<char> {
    seq!['-']
}

pub open spec fn comma_seq() -> Seq<char> {
    seq![',']
}

fn dash_seq_vec() -> (v: Vec<char>)
    ensures
        v@ == dash_seq(),
{
    let mut v: Vec<char> = Vec::new();
    v.push('-');
    proof {
        assert(v@ =~= dash_seq());
    }
    v
}

fn comma_seq_vec() -> (v: Vec<char>)
    ensures
        v@ == comma_seq(),
{
    let mut v: Vec<char> = Vec::new();
    v.push(',');
    proof {
        assert(v@ =~= comma_seq());
    }
    v
}

/// The line carries a time marker and the window after it holds no dash,
/// so the duration notation governs its times.
pub open spec fn uses_duration_notation(s: Seq<char>) -> bool {
    match find(lower(s), at_marker()) {
        Some(i) => {
            let start = i + 4;
            let avail = s.len() - start;
            let end: int = start + if avail >= 13 {
                13int
            } else if avail >= 11 {
                11int
            } else {
                avail
            };
            find(s.subrange(start, end), dash_seq()) is None
        },
        None => true,
    }
}

/// The start time of the duration notation: the clock text between the time
/// marker and the next blank, colon- or dot-separated.
pub open spec fn start_time_val(s: Seq<char>) -> Option<int> {
    let c = between_val(lower(s), at_marker(), space_marker());
    clock_val(c, sep_for(c))
}

/// The duration count: the text after the duration marker up to the next
/// blank or to the line's end, read as a signed number.
pub open spec fn duration_count(s: Seq<char>) -> Option<int> {
    let low = lower(s);
    match find(low, duration_marker()) {
        Some(i) => {
            let rest = low.subrange(i + 10, low.len() as int);
            let e: int = match find(rest, space_marker()) {
                Some(j) => j,
                None => rest.len() as int,
            };
            parse_i64_spec(rest.subrange(0, e))
        },
        None => None,
    }
}

/// The stop time of the duration notation: the start plus the counted
/// duration, present only when both parts read.
pub open spec fn stop_time_val(s: Seq<char>) -> Option<int> {
    match start_time_val(s) {
        Some(st) => match duration_count(s) {
            Some(n) => Some(duration_stop(st, n)),
            None => None,
        },
        None => None,
    }
}

/// The stop time of the range notation.  The text right of the dash may
/// continue: the clock text ends at the first blank or comma, or takes the
/// whole text, and uses a colon or a dot as its separator.
pub open spec fn stop_val(t: Seq<char>) -> Option<int> {
    let e: int = match (find(t, space_marker()), find(t, comma_seq())) {
        (Some(a), Some(b)) => if a <= b {
            a
        } else {
            b
        },
        (Some(a), None) => a,
        (None, Some(b)) => b,
        (None, None) => t.len() as int,
    };
    let c = t.subrange(0, e);
    clock_val(c, sep_for(c))
}

/// The start and stop time of a line.  A window of text after the time
/// marker is inspected: when it holds a dash, the range notation applies —
/// the stop text then runs from the dash to the line's end, and the stop is
/// kept only beside a readable start; otherwise the duration notation
/// applies.
pub open spec fn time_fields(s: Seq<char>) -> (Option<int>, Option<int>) {
    let low = lower(s);
    match find(low, at_marker()) {
        Some(i) => {
            let start = i + 4;
            let avail = s.len() - start;
            let end: int = start + if avail >= 13 {
                13int
            } else if avail >= 11 {
                11int
            } else {
                avail
            };
            let w = s.subrange(start, end);
            match find(w, dash_seq()) {
                Some(j) => {
                    let left = crate::text::trim(w.subrange(0, j));
                    let right = crate::text::trim(s.subrange(start + j + 1, s.len() as int));
                    match clock_val(left, sep_for(left)) {
                        Some(st) => (Some(st), stop_val(right)),
                        None => (None, None),
                    }
                },
                None => (start_time_val(s), stop_time_val(s)),
            }
        },
        None => (start_time_val(s), stop_time_val(s)),
    }
}

/// The start time after the time marker, in the duration notation.
pub fn extract_start_time(line: &str) -> (r: Option<Time>)
    ensures
        opt_minutes(r) == start_time_val(line@),
        r matches Some(t) ==> t.wf(),
{
    let v = chars_of(line);
    let low = to_lower_vec(&v);
    let am = at_marker_vec();
    match find_sub(&low, &am) {
        Some(i) => {
            proof {
                lemma_find_props(lower(line@), at_marker());
            }
            let n = low.len();
            let sp = i + 4;
            let rest = sub_vec(&low, sp, n);
            let smv = space_marker_vec();
            let e: usize = match find_sub(&rest, &smv) {
                Some(j) => {
                    proof {
                        lemma_find_props(rest@, space_marker());
                    }
                    j
                },
                None => 0,
            };
            proof {
                assert(low@.subrange(sp as int, sp + e) =~= low@.subrange(sp as int, n as int)
                    .subrange(0, e as int));
            }
            let cand = sub_vec(&low, sp, sp + e);
            let sep: char = if contains_char_exec(&cand, ':') {
                ':'
            } else {
                '.'
            };
            parse_clock(&low, sp, sp + e, sep)
        },
        None => None,
    }
}

/// The stop time in the duration notation: start plus counted duration.
pub fn extract_stop_time(line: &str) -> (r: Option<Time>)
    ensures
        opt_minutes(r) == stop_time_val(line@),
        r matches Some(t) ==> t.wf(),
{
    match extract_start_time(line) {
        Some(st) => {
            let v = chars_of(line);
            let low = to_lower_vec(&v);
            let dm = duration_marker_vec();
            match find_sub(&low, &dm) {
                Some(i) => {
                    proof {
                        lemma_find_props(lower(line@), duration_marker());
                    }
                    let n = low.len();
                    let sp = i + 10;
                    let rest = sub_vec(&low, sp, n);
                    let smv = space_marker_vec();
                    let e: usize = match find_sub(&rest, &smv) {
                        Some(j) => {
                            proof {
                                lemma_find_props(rest@, space_marker());
                            }
                            j
                        },
                        None => rest.len(),
                    };
                    proof {
                        assert(low@.subrange(sp as int, sp + e) =~= low@.subrange(
                            sp as int,
                            n as int,
                        ).subrange(0, e as int));
                    }
                    match parse_i64_exec(&low, sp, sp + e) {
                        Some(d) => Some(add_duration(st, d)),
                        None => None,
                    }
                },
                None => None,
            }
        },
        None => None,
    }
}

/// Start and stop time of a line, over both notations.
pub(crate) struct TimeHelper {
    pub start: Option<Time>,
    pub stop: Option<Time>,
}

/// The stop time text of the range notation, already trimmed.
fn get_stop(excerpt: &Vec<char>) -> (r: Option<Time>)
    ensures
        opt_minutes(r) == stop_val(excerpt@),
        r matches Some(t) ==> t.wf(),
{
    let ghost t = excerpt@;
    let smv = space_marker_vec();
    let cmv = comma_seq_vec();
    let fs = find_sub(excerpt, &smv);
    let fc = find_sub(excerpt, &cmv);
    proof {
        lemma_find_props(t, space_marker());
        lemma_find_props(t, comma_seq());
    }
    let e: usize = match (fs, fc) {
        (Some(a), Some(b)) => if a <= b {
            a
        } else {
            b
        },
        (Some(a), None) => a,
        (None, Some(b)) => b,
        (None, None) => excerpt.len(),
    };
    let cand = sub_vec(excerpt, 0, e);
    let sep: char = if contains_char_exec(&cand, ':') {
        ':'
    } else {
        '.'
    };
    parse_clock(excerpt, 0, e, sep)
}

/// Start and stop time of a line: the range notation when a dash stands in
/// the window after the time marker, else the duration notation.
pub(crate) fn extract_duration(s_in: &str) -> (r: TimeHelper)
    ensures
        opt_minutes(r.start) == time_fields(s_in@).0,
        opt_minutes(r.stop) == time_fields(s_in@).1,
        r.start matches Some(t) ==> t.wf(),
        r.stop matches Some(t) ==> t.wf(),
{
    let v = chars_of(s_in);
    let low = to_lower_vec(&v);
    let am = at_marker_vec();
    match find_sub(&low, &am) {
        Some(i) => {
            proof {
                lemma_find_props(lower(s_in@), at_marker());
            }
            let n = v.len();
            let start = i + 4;
            let avail = n - start;
            let end: usize = start + if avail >= 13 {
                13
            } else if avail >= 11 {
                11
            } else {
                avail
            };
            let w = sub_vec(&v, start, end);
            let dv = dash_seq_vec();
            match find_sub(&w, &dv) {
                Some(j) => {
                    proof {
                        lemma_find_props(w@, dash_seq());
                    }
                    let leftw = sub_vec(&w, 0, j);
                    let (la, lb) = trim_exec(&leftw);
                    let ltrim = sub_vec(&leftw, la, lb);
                    let sep: char = if contains_char_exec(&ltrim, ':') {
                        ':'
                    } else {
                        '.'
                    };
                    match parse_clock(&leftw, la, lb, sep) {
                        Some(t) => {
                            let rightw = sub_vec(&v, start + j + 1, n);
                            let (ra, rb) = trim_exec(&rightw);
                            let rtrim = sub_vec(&rightw, ra, rb);
                            let sp = get_stop(&rtrim);
                            TimeHelper { start: Some(t), stop: sp }
                        },
                        None => TimeHelper { start: None, stop: None },
                    }
                },
                None => TimeHelper {
                    start: extract_start_time(s_in),
                    stop: extract_stop_time(s_in),
                },
            }
        },
        None => TimeHelper { start: extract_start_time(s_in), stop: extract_stop_time(s_in) },
    }
}

// ---------- stand-alone date texts ----------

/// The value of a date text `<year>-<month>-<day>`: the year up to four
/// digits, or any run of digits after an explicit sign; month and day one
/// or two digits; blanks may precede each number; nothing else.  The parts
/// must denote a real day.
pub open spec fn iso_date_val(s: Seq<char>) -> Option<Date> {
    let ss = next_non_ws(s, 0);
    let signed = ss < s.len() && (s[ss] == '-' || s[ss] == '+');
    let ys: int = if signed {
        ss + 1
    } else {
        ss
    };
    let yr = digit_run_end(s, ys);
    let ye: int = if signed {
        yr
    } else if yr > ys + 4 {
        ys + 4
    } else {
        yr
    };
    if ye == ys || ye >= s.len() || s[ye] != '-' {
        None
    } else {
        let y0 = digits_val(s.subrange(ys, ye));
        let y: int = if signed && s[ss] == '-' {
            -y0
        } else {
            y0
        };
        let ms = next_non_ws(s, ye + 1);
        let mr = digit_run_end(s, ms);
        let me: int = if mr > ms + 2 {
            ms + 2
        } else {
            mr
        };
        if me == ms || me >= s.len() || s[me] != '-' {
            None
        } else {
            let m = digits_val(s.subrange(ms, me));
            let ds = next_non_ws(s, me + 1);
            let dr = digit_run_end(s, ds);
            let de: int = if dr > ds + 2 {
                ds + 2
            } else {
                dr
            };
            if de == ds || de != s.len() {
                None
            } else {
                let d = digits_val(s.subrange(ds, de));
                date_from_ymd(y, m, d)
            }
        }
    }
}

/// The value of a date text `<day>.<month>.<year>`, the German order, with
/// the same part shapes as the dashed form.
pub open spec fn german_date_val(s: Seq<char>) -> Option<Date> {
    let ds0 = next_non_ws(s, 0);
    let dr = digit_run_end(s, ds0);
    let de: int = if dr > ds0 + 2 {
        ds0 + 2
    } else {
        dr
    };
    if de == ds0 || de >= s.len() || s[de] != '.' {
        None
    } else {
        let d = digits_val(s.subrange(ds0, de));
        let ms = next_non_ws(s, de + 1);
        let mr = digit_run_end(s, ms);
        let me: int = if mr > ms + 2 {
            ms + 2
        } else {
            mr
        };
        if me == ms || me >= s.len() || s[me] != '.' {
            None
        } else {
            let m = digits_val(s.subrange(ms, me));
            let ys = next_non_ws(s, me + 1);
            let signed = ys < s.len() && (s[ys] == '-' || s[ys] == '+');
            let yds: int = if signed {
                ys + 1
            } else {
                ys
            };
            let yr = digit_run_end(s, yds);
            let ye: int = if signed {
                yr
            } else if yr > yds + 4 {
                yds + 4
            } else {
                yr
            };
            if ye == yds || ye != s.len() {
                None
            } else {
                let y0 = digits_val(s.subrange(yds, ye));
                let y: int = if signed && s[ys] == '-' {
                    -y0
                } else {
                    y0
                };
                date_from_ymd(y, m, d)
            }
        }
    }
}

/// The value of a stand-alone date text, in either order.
pub open spec fn as_date_val(s: Seq<char>) -> Option<Date> {
    if iso_date_val(s) is Some {
        iso_date_val(s)
    } else {
        german_date_val(s)
    }
}

/// Year magnitude and sign to a date, together with month and day parts.
fn finish_date(y0: u64, neg: bool, m0: u64, d0: u64) -> (r: Option<Date>)
    requires
        m0 < 100,
    ensures
        r == date_from_ymd(
            if neg {
                -(y0 as int)
            } else {
                y0 as int
            },
            m0 as int,
            d0 as int,
        ),
{
    if neg {
        if y0 > 262143 {
            return None;
        }
        make_date(-(y0 as i32), m0 as u8, d0)
    } else {
        if y0 > 262142 {
            return None;
        }
        make_date(y0 as i32, m0 as u8, d0)
    }
}

fn iso_date_exec(v: &Vec<char>) -> (r: Option<Date>)
    ensures
        r == iso_date_val(v@),
{
    let n = v.len();
    let ss = scan_non_ws(v, 0);
    proof {
        lemma_next_non_ws_bounds(v@, 0);
    }
    let signed = ss < n && (v[ss] == '-' || v[ss] == '+');
    let ys: usize = if signed {
        ss + 1
    } else {
        ss
    };
    let yr = scan_digits(v, ys);
    proof {
        lemma_digit_run_bounds(v@, ys as int);
    }
    let ye: usize = if signed {
        yr
    } else if yr - ys > 4 {
        ys + 4
    } else {
        yr
    };
    if ye == ys || ye >= n || v[ye] != '-' {
        return None;
    }
    let ms = scan_non_ws(v, ye + 1);
    proof {
        lemma_next_non_ws_bounds(v@, ye + 1);
    }
    let mr = scan_digits(v, ms);
    proof {
        lemma_digit_run_bounds(v@, ms as int);
    }
    let me: usize = if mr - ms > 2 {
        ms + 2
    } else {
        mr
    };
    if me == ms || me >= n || v[me] != '-' {
        return None;
    }
    let ds = scan_non_ws(v, me + 1);
    proof {
        lemma_next_non_ws_bounds(v@, me + 1);
    }
    let dr = scan_digits(v, ds);
    proof {
        lemma_digit_run_bounds(v@, ds as int);
    }
    let de: usize = if dr - ds > 2 {
        ds + 2
    } else {
        dr
    };
    if de == ds || de != n {
        return None;
    }
    let m0: u64 = match digits_range_val(v, ms, me) {
        Some(x) => x,
        None => {
            proof {
                lemma_digits_val_two(v@.subrange(ms as int, me as int));
                assert(false);
            }
            0
        },
    };
    let d0: u64 = match digits_range_val(v, ds, de) {
        Some(x) => x,
        None => {
            proof {
                lemma_digits_val_two(v@.subrange(ds as int, de as int));
                assert(false);
            }
            0
        },
    };
    proof {
        lemma_digits_val_two(v@.subrange(ms as int, me as int));
    }
    match digits_range_val(v, ys, ye) {
        Some(y0) => finish_date(y0, signed && v[ss] == '-', m0, d0),
        None => None,
    }
}

fn german_date_exec(v: &Vec<char>) -> (r: Option<Date>)
    ensures
        r == german_date_val(v@),
{
    let n = v.len();
    let ds0 = scan_non_ws(v, 0);
    proof {
        lemma_next_non_ws_bounds(v@, 0);
    }
    let dr = scan_digits(v, ds0);
    proof {
        lemma_digit_run_bounds(v@, ds0 as int);
    }
    let de: usize = if dr - ds0 > 2 {
        ds0 + 2
    } else {
        dr
    };
    if de == ds0 || de >= n || v[de] != '.' {
        return None;
    }
    let ms = scan_non_ws(v, de + 1);
    proof {
        lemma_next_non_ws_bounds(v@, de + 1);
    }
    let mr = scan_digits(v, ms);
    proof {
        lemma_digit_run_bounds(v@, ms as int);
    }
    let me: usize = if mr - ms > 2 {
        ms + 2
    } else {
        mr
    };
    if me == ms || me >= n || v[me] != '.' {
        return None;
    }
    let ys = scan_non_ws(v, me + 1);
    proof {
        lemma_next_non_ws_bounds(v@, me + 1);
    }
    let signed = ys < n && (v[ys] == '-' || v[ys] == '+');
    let yds: usize = if signed {
        ys + 1
    } else {
        ys
    };
    let yr = scan_digits(v, yds);
    proof {
        lemma_digit_run_bounds(v@, yds as int);
    }
    let ye: usize = if signed {
        yr
    } else if yr - yds > 4 {
        yds + 4
    } else {
        yr
    };
    if ye == yds || ye != n {
        return None;
    }
    let d0: u64 = match digits_range_val(v, ds0, de) {
        Some(x) => x,
        None => {
            proof {
                lemma_digits_val_two(v@.subrange(ds0 as int, de as int));
                assert(false);
            }
            0
        },
    };
    let m0: u64 = match digits_range_val(v, ms, me) {
        Some(x) => x,
        None => {
            proof {
                lemma_digits_val_two(v@.subrange(ms as int, me as int));
                assert(false);
            }
            0
        },
    };
    proof {
        lemma_digits_val_two(v@.subrange(ms as int, me as int));
    }
    match digits_range_val(v, yds, ye) {
        Some(y0) => finish_date(y0, signed && v[ys] == '-', m0, d0),
        None => None,
    }
}

/// Reads a stand-alone date text, in the dashed year-first order or the
/// dotted day-first order.
pub fn as_date(s_text: &str) -> (r: Option<Date>)
    ensures
        r == as_date_val(s_text@),
        r matches Some(d) ==> d.wf(),
{
    let v = chars_of(s_text);
    match iso_date_exec(&v) {
        Some(d) => Some(d),
        None => german_date_exec(&v),
    }
}

/// Is the text a stand-alone date in either order?
pub fn is_date(s_text: &str) -> (r: bool)
    ensures
        r == (as_date_val(s_text@) is Some),
{
    as_date(s_text).is_some()
}

// ---------- the three notations ----------

/// The nearest date on or after `d` whose weekday is `k`, found by stepping
/// forward while the fuel lasts; seven steps reach every weekday.
pub open spec fn find_next_val(k: int, d: Date, fuel: nat) -> Option<Date>
    decreases fuel,
{
    if fuel == 0 {
        None
    } else if d.weekday_index() == k {
        Some(d)
    } else {
        match succ_date(d) {
            Some(n) => find_next_val(k, n, (fuel - 1) as nat),
            None => None,
        }
    }
}

/// What a full-date line yields: first word a year, second a month
/// abbreviation, third a day number; the explicit year marks the
/// appointment as non-recurring even when the date itself is invalid.
pub open spec fn full_date_val(s: Seq<char>) -> Option<AppointmentView> {
    match word(s, 0) {
        None => None,
        Some(w0) => match parse_i32_spec(w0) {
            None => None,
            Some(y) => match word(s, 1) {
                None => None,
                Some(w1) => match month_of(w1) {
                    None => None,
                    Some(m) => match word(s, 2) {
                        None => None,
                        Some(w2) => match parse_u64_spec(w2) {
                            None => None,
                            Some(d) => {
                                let tf = time_fields(s);
                                Some(
                                    AppointmentView {
                                        date: date_from_ymd(y, m + 1, d),
                                        is_full_date: true,
                                        start: tf.0,
                                        stop: tf.1,
                                        description: description_val(s),
                                        date_alt_text: datum_text_val(s),
                                    },
                                )
                            },
                        },
                    },
                },
            },
        },
    }
}

/// What a weekday line yields against the reference date `refd`: the first
/// word names a weekday, resolved to the nearest matching date on or after
/// the reference date.
pub open spec fn without_month_val(s: Seq<char>, refd: Date) -> Option<AppointmentView> {
    match word(s, 0) {
        None => None,
        Some(w0) => match day_of(w0) {
            None => None,
            Some(k) => match find_next_val(k, refd, 7) {
                None => None,
                Some(nd) => {
                    let tf = time_fields(s);
                    Some(
                        AppointmentView {
                            date: Some(nd),
                            is_full_date: false,
                            start: tf.0,
                            stop: tf.1,
                            description: description_val(s),
                            date_alt_text: datum_text_val(s),
                        },
                    )
                },
            },
        },
    }
}

/// What a month-day line yields in year `year`: the first word begins with
/// a month abbreviation — matched again on the whole line — and the second
/// word, less a final comma, is the day number.
pub open spec fn without_year_val(s: Seq<char>, year: int) -> Option<AppointmentView> {
    match word(s, 0) {
        None => None,
        Some(w0) => if month_of(w0) is Some {
            match month_of(s) {
                None => None,
                Some(m) => match word(s, 1) {
                    None => None,
                    Some(w1) => match parse_u64_spec(strip_final_comma_val(w1)) {
                        None => None,
                        Some(d) => {
                            let tf = time_fields(s);
                            Some(
                                AppointmentView {
                                    date: date_from_ymd(year, m + 1, d),
                                    is_full_date: false,
                                    start: tf.0,
                                    stop: tf.1,
                                    description: description_val(s),
                                    date_alt_text: datum_text_val(s),
                                },
                            )
                        },
                    },
                },
            }
        } else {
            None
        },
    }
}

/// What a line yields against the reference date: the notations are tried
/// in a fixed order — full date, then weekday, then month-day.
pub open spec fn parse_line_val(s: Seq<char>, refd: Date) -> Option<AppointmentView> {
    if full_date_val(s) is Some {
        full_date_val(s)
    } else if without_month_val(s, refd) is Some {
        without_month_val(s, refd)
    } else {
        without_year_val(s, refd.year as int)
    }
}

/// The nearest date on or after `start` whose weekday index is `weekday`.
fn find_next_date(weekday: u8, start: Date) -> (r: Option<Date>)
    requires
        weekday < 7,
        start.wf(),
    ensures
        r == find_next_val(weekday as int, start, 7),
        r matches Some(d) ==> d.wf(),
{
    let mut cur: Date = start;
    let mut i: usize = 0;
    while i < 7
        invariant
            i <= 7,
            cur.wf(),
            weekday < 7,
            start.wf(),
            find_next_val(weekday as int, start, 7) == find_next_val(
                weekday as int,
                cur,
                (7 - i) as nat,
            ),
        decreases 7 - i,
    {
        if weekday_of(&cur) == weekday {
            proof {
                assert(find_next_val(weekday as int, cur, (7 - i) as nat) == Some(cur));
            }
            return Some(cur);
        }
        match next_day_opt(&cur) {
            Some(n) => {
                cur = n;
                i = i + 1;
            },
            None => {
                return None;
            },
        }
    }
    None
}

/// A full-date line: `<year> <month> <day>`, with optional time range and
/// description.
pub fn get_termin_from_full_date(s_in: &str) -> (r: Option<Appointment>)
    ensures
        appt_opt_view(r) == full_date_val(s_in@),
        r matches Some(a) ==> a.wf(),
{
    let v = chars_of(s_in);
    let (a0, b0) = word_span_exec(&v, 0);
    if a0 == v.len() {
        return None;
    }
    let y: i32 = match parse_i32_exec(&v, a0, b0) {
        Some(y) => y,
        None => {
            return None;
        },
    };
    let (a1, b1) = word_span_exec(&v, 1);
    if a1 == v.len() {
        return None;
    }
    let w1 = sub_vec(&v, a1, b1);
    let m: u8 = match month_of_exec(&w1) {
        Some(m) => m,
        None => {
            return None;
        },
    };
    let (a2, b2) = word_span_exec(&v, 2);
    if a2 == v.len() {
        return None;
    }
    let d: u64 = match parse_u64_exec(&v, a2, b2) {
        Some(d) => d,
        None => {
            return None;
        },
    };
    let da = make_date(y, m + 1, d);
    let t = extract_duration(s_in);
    Some(
        Appointment {
            appointment_date: da,
            appointment_is_full_date: true,
            appointment_start: t.start,
            appointment_stop: t.stop,
            appointment_description: extract_description(s_in),
            appointment_date_alt_text: extract_datum_text(s_in),
        },
    )
}

/// A weekday line against a concrete reference date.
fn without_month_with(s_in: &str, refd: Date) -> (r: Option<Appointment>)
    requires
        refd.wf(),
    ensures
        appt_opt_view(r) == without_month_val(s_in@, refd),
        r matches Some(a) ==> a.wf(),
{
    let v = chars_of(s_in);
    let (a0, b0) = word_span_exec(&v, 0);
    if a0 == v.len() {
        return None;
    }
    let w0 = sub_vec(&v, a0, b0);
    match day_of_exec(&w0) {
        Some(k) => {
            match find_next_date(k, refd) {
                Some(da) => {
                    let t = extract_duration(s_in);
                    Some(
                        Appointment {
                            appointment_date: Some(da),
                            appointment_is_full_date: false,
                            appointment_start: t.start,
                            appointment_stop: t.stop,
                            appointment_description: extract_description(s_in),
                            appointment_date_alt_text: extract_datum_text(s_in),
                        },
                    )
                },
                None => None,
            }
        },
        None => None,
    }
}

/// Today from the clock, as the default reference date of a parse.  A
/// clock reading within the last week of the representable range — a
/// machine-absurd state, on which the weekday scan could not finish — falls
/// back to the first day of that range's final month, so that the reference
/// always leaves room for a week.
pub(crate) fn today_reference() -> (r: Date)
    ensures
        r.wf(),
        r.day_number() + 6 <= crate::date::max_date().day_number(),
{
    let t = today_from_clock();
    let maxd = Date { year: crate::date::MAX_YEAR, month: 12, day: 31 };
    proof {
        assert(maxd == crate::date::max_date());
    }
    let dnm = crate::date::day_number_exec(&maxd);
    let dnt = crate::date::day_number_exec(&t);
    if dnt + 6 <= dnm {
        t
    } else {
        let fallback = Date { year: crate::date::MAX_YEAR, month: 12, day: 1 };
        proof {
            assert(fallback.day_number() + 30 == crate::date::max_date().day_number());
        }
        fallback
    }
}

/// A weekday line: `<weekday> ...`, resolved against the reference date,
/// or against today when none is given.
pub fn get_termin_without_month(s_in: &str, start_date: Option<Date>) -> (r: Option<Appointment>)
    requires
        start_date matches Some(d) ==> d.wf(),
    ensures
        match start_date {
            Some(sd) => appt_opt_view(r) == without_month_val(s_in@, sd),
            None => exists|t: Date|
                t.wf() && t.day_number() + 6 <= crate::date::max_date().day_number()
                    && appt_opt_view(r) == without_month_val(s_in@, t),
        },
        r matches Some(a) ==> a.wf(),
        (start_date is None && (word(s_in@, 0) matches Some(w0) && day_of(w0) is Some)) ==> r
            is Some,
{
    match start_date {
        Some(d) => without_month_with(s_in, d),
        None => {
            let t = today_reference();
            let r = without_month_with(s_in, t);
            proof {
                assert(t.wf() && t.day_number() + 6 <= crate::date::max_date().day_number()
                    && appt_opt_view(r) == without_month_val(s_in@, t));
                if word(s_in@, 0) matches Some(w0) && day_of(w0) is Some {
                    crate::laws::lemma_weekday_line_resolves(s_in@, t);
                }
            }
            r
        },
    }
}

/// A month-day line against a concrete reference year.
fn without_year_with(s_in: &str, year: i32) -> (r: Option<Appointment>)
    ensures
        appt_opt_view(r) == without_year_val(s_in@, year as int),
        r matches Some(a) ==> a.wf(),
{
    let v = chars_of(s_in);
    let (a0, b0) = word_span_exec(&v, 0);
    if a0 == v.len() {
        return None;
    }
    let w0 = sub_vec(&v, a0, b0);
    if month_of_exec(&w0).is_none() {
        return None;
    }
    match month_of_exec(&v) {
        Some(m) => {
            let (a1, b1) = word_span_exec(&v, 1);
            if a1 == v.len() {
                return None;
            }
            let w1str = s_in.substring_char(a1, b1);
            let stripped = strip_final_comma(w1str);
            let sv = chars_of(stripped);
            proof {
                assert(sv@.subrange(0, sv@.len() as int) =~= sv@);
            }
            match parse_u64_exec(&sv, 0, sv.len()) {
                Some(d) => {
                    let da = make_date(year, m + 1, d);
                    let t = extract_duration(s_in);
                    Some(
                        Appointment {
                            appointment_date: da,
                            appointment_is_full_date: false,
                            appointment_start: t.start,
                            appointment_stop: t.stop,
                            appointment_description: extract_description(s_in),
                            appointment_date_alt_text: extract_datum_text(s_in),
                        },
                    )
                },
                None => None,
            }
        },
        None => None,
    }
}

/// A month-day line: `<month> <day>`, given the year of the reference date,
/// or of today when none is given.
pub fn get_termin_without_year(s_in: &str, start_date: Option<Date>) -> (r: Option<Appointment>)
    requires
        start_date matches Some(d) ==> d.wf(),
    ensures
        match start_date {
            Some(sd) => appt_opt_view(r) == without_year_val(s_in@, sd.year as int),
            None => exists|t: Date|
                t.wf() && t.day_number() + 6 <= crate::date::max_date().day_number()
                    && appt_opt_view(r) == without_year_val(s_in@, t.year as int),
        },
        r matches Some(a) ==> a.wf(),
{
    match start_date {
        Some(d) => without_year_with(s_in, d.year),
        None => {
            let t = today_reference();
            let r = without_year_with(s_in, t.year);
            proof {
                assert(t.wf() && t.day_number() + 6 <= crate::date::max_date().day_number()
                    && appt_opt_view(r) == without_year_val(s_in@, t.year as int));
            }
            r
        },
    }
}

/// Parses one appointment line, trying the notations in order: full date,
/// weekday, month-day.  Partial dates resolve against the reference date,
/// or against today when none is given.
pub fn get_termin_from_line(s_text: &str, start_date: Option<Date>) -> (r: Option<Appointment>)
    requires
        start_date matches Some(d) ==> d.wf(),
    ensures
        match start_date {
            Some(sd) => appt_opt_view(r) == parse_line_val(s_text@, sd),
            None => exists|t: Date|
                t.wf() && t.day_number() + 6 <= crate::date::max_date().day_number()
                    && appt_opt_view(r) == parse_line_val(s_text@, t),
        },
        r matches Some(a) ==> a.wf(),
        (start_date is None && (word(s_text@, 0) matches Some(w0) && day_of(w0) is Some)) ==> r
            is Some,
{
    match start_date {
        Some(d) => parse_line_with(s_text, d),
        None => {
            let t = today_reference();
            let r = parse_line_with(s_text, t);
            proof {
                assert(t.wf() && t.day_number() + 6 <= crate::date::max_date().day_number()
                    && appt_opt_view(r) == parse_line_val(s_text@, t));
                if word(s_text@, 0) matches Some(w0) && day_of(w0) is Some {
                    crate::laws::lemma_weekday_line_resolves(s_text@, t);
                }
            }
            r
        },
    }
}

/// One line against a concrete reference date.
fn parse_line_with(s_text: &str, refd: Date) -> (r: Option<Appointment>)
    requires
        refd.wf(),
    ensures
        appt_opt_view(r) == parse_line_val(s_text@, refd),
        r matches Some(a) ==> a.wf(),
{
    match get_termin_from_full_date(s_text) {
        Some(r) => Some(r),
        None => match without_month_with(s_text, refd) {
            Some(s) => Some(s),
            None => without_year_with(s_text, refd.year),
        },
    }
}

/// The text between the first occurrence of `start` and the following
/// occurrence of `end`; empty when either is missing.
pub fn between<'a>(source: &'a str, start: &'a str, end: &'a str) -> (r: &'a str)
    ensures
        r@ == between_val(source@, start@, end@),
{
    let sv = chars_of(source);
    let av = chars_of(start);
    match find_sub(&sv, &av) {
        Some(i) => {
            proof {
                lemma_find_props(source@, start@);
            }
            let n = sv.len();
            let sp = i + av.len();
            let rest = sub_vec(&sv, sp, n);
            let ev = chars_of(end);
            let e: usize = match find_sub(&rest, &ev) {
                Some(j) => {
                    proof {
                        lemma_find_props(rest@, end@);
                    }
                    j
                },
                None => 0,
            };
            let r = source.substring_char(sp, sp + e);
            proof {
                assert(source@.subrange(sp as int, sp + e) =~= source@.subrange(
                    sp as int,
                    n as int,
                ).subrange(0, e as int));
            }
            r
        },
        None => {
            let r = source.substring_char(0, 0);
            proof {
                assert(source@.subrange(0, 0) =~= Seq::<char>::empty());
            }
            r
        },
    }
}

} // verus!
