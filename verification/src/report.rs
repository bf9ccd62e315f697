use vstd::prelude::*;
use vstd::string::{StrSliceExecFns, StringExecFns};
use crate::date::Date;
use crate::parser::{day_of, get_termin_from_line, month_of, parse_line_val, today_reference};
use crate::render::{append_time, time_dot_text};
use crate::text::{
    chars_of, find, find_sub, lemma_next_nl_bounds, lines_from, lines_of, scan_nl, strip_cr,
    sub_vec, word, word_span_exec,
};
use crate::{appt_opt_view, Appointment, AppointmentView};

verus! {

// The folders configuration and the collaborators that walk reminder-file
// text line by line: the syntax check, the date-match filter and the text
// search.

/// The two folders the tool works with, and whether archives are merged.
pub struct RRemindFolders {
    pub dir_rem_files: String,
    pub dir_rem_archive: String,
    pub b_merge_archive: bool,
}

impl RRemindFolders {
    /// The configuration file's text: one line for each folder, each
    /// ended by a line break.
    pub open spec fn config_file_text(self) -> Seq<char> {
        "rremind_files="@ + self.dir_rem_files@ + "\n"@ + "rremind_archive="@
            + self.dir_rem_archive@ + "\n"@
    }

    /// Writes the configuration as file text.
    pub fn to_config_file_text(&self) -> (r: String)
        ensures
            r@ == self.config_file_text(),
    {
        let mut s = String::from_str("rremind_files=");
        s.append(self.dir_rem_files.as_str());
        s.append("\n");
        s.append("rremind_archive=");
        s.append(self.dir_rem_archive.as_str());
        s.append("\n");
        proof {
            assert(s@ =~= self.config_file_text());
        }
        s
    }
}

/// Whether a line looks like an appointment at a glance: its first word
/// begins with a weekday or month abbreviation.  No first word leaves the
/// question open.
pub open spec fn seems_parseable_val(s: Seq<char>) -> Option<bool> {
    match word(s, 0) {
        None => None,
        Some(w0) => if day_of(w0) is Some || month_of(w0) is Some {
            Some(true)
        } else {
            None
        },
    }
}

/// A quick look whether a line could be an appointment.
pub fn seems_parseable(s_info: &str) -> (r: Option<bool>)
    ensures
        r == seems_parseable_val(s_info@),
{
    let v = chars_of(s_info);
    let (a0, b0) = word_span_exec(&v, 0);
    if a0 == v.len() {
        return None;
    }
    let w0 = sub_vec(&v, a0, b0);
    if crate::parser::day_of_exec(&w0).is_some() {
        return Some(true);
    }
    if crate::parser::month_of_exec(&w0).is_some() {
        return Some(true);
    }
    None
}

/// The console text of an appointment's time range, in the dotted form.
pub open spec fn zeitangabe_text(t: Appointment) -> Seq<char> {
    match t.appointment_start {
        None => Seq::empty(),
        Some(st) => match t.appointment_stop {
            None => " ("@ + time_dot_text(st) + " Uhr)"@,
            Some(sp) => " ("@ + time_dot_text(st) + "-"@ + time_dot_text(sp) + " Uhr)"@,
        },
    }
}

/// Renders an appointment's time range for the console.
pub fn get_zeitangabe(termin: &Appointment) -> (r: String)
    requires
        termin.wf(),
    ensures
        r@ == zeitangabe_text(*termin),
{
    match termin.appointment_start {
        None => String::new(),
        Some(st) => {
            let mut s = String::from_str(" (");
            append_time(&mut s, st, false);
            match termin.appointment_stop {
                None => {
                    s.append(" Uhr)");
                    proof {
                        assert(s@ =~= zeitangabe_text(*termin));
                    }
                    s
                },
                Some(sp) => {
                    s.append("-");
                    append_time(&mut s, sp, false);
                    s.append(" Uhr)");
                    proof {
                        assert(s@ =~= zeitangabe_text(*termin));
                    }
                    s
                },
            }
        },
    }
}

// ---------- walking a file's lines ----------

/// The views of a vector of strings.
pub open spec fn string_views(ss: Seq<String>) -> Seq<Seq<char>> {
    ss.map_values(|x: String| x@)
}

/// The views of a vector of appointments.
pub open spec fn appt_views(aa: Seq<Appointment>) -> Seq<AppointmentView> {
    aa.map_values(|x: Appointment| x@)
}

/// The report text for one unreadable line.
pub open spec fn error_text(pfad: Seq<char>, line: Seq<char>) -> Seq<char> {
    "File: '"@ + pfad + "':\nLine: "@ + line + "\n"@
}

/// Bounds of the line that begins at `p`: the line's end, and the start
/// of the next line.
fn next_line(v: &Vec<char>, p: usize) -> (r: (usize, usize))
    requires
        p < v.len(),
    ensures
        ({
            let ls = lines_from(v@, p as int);
            &&& p <= r.0 <= v@.len()
            &&& p < r.1 <= v@.len()
            &&& ls.len() >= 1
            &&& v@.subrange(p as int, r.0 as int) == ls[0]
            &&& lines_from(v@, r.1 as int) == ls.drop_first()
        }),
{
    let n = v.len();
    let ghost ls = lines_from(v@, p as int);
    let j = scan_nl(v, p);
    proof {
        lemma_next_nl_bounds(v@, p as int);
    }
    if j >= n {
        proof {
            assert(ls[0] == v@.subrange(p as int, n as int));
            assert(ls.drop_first() =~= lines_from(v@, n as int));
        }
        (n, n)
    } else {
        let mut e: usize = j;
        if e > p && v[e - 1] == '\r' {
            e = e - 1;
        }
        proof {
            assert(ls[0] == strip_cr(v@.subrange(p as int, j as int)));
            assert(ls.drop_first() =~= lines_from(v@, j + 1));
            if e < j {
                assert(v@.subrange(p as int, e as int) =~= v@.subrange(
                    p as int,
                    j as int,
                ).drop_last());
            }
            assert(v@.subrange(p as int, e as int) == ls[0]);
        }
        (e, j + 1)
    }
}

/// The reports for the lines of a file that are not empty and that the
/// parser rejects against the reference date.
pub open spec fn errors_from(pfad: Seq<char>, ls: Seq<Seq<char>>, refd: Date) -> Seq<Seq<char>>
    decreases ls.len(),
{
    if ls.len() == 0 {
        Seq::empty()
    } else {
        let head: Seq<Seq<char>> = if ls[0].len() > 0 && parse_line_val(ls[0], refd) is None {
            seq![error_text(pfad, ls[0])]
        } else {
            Seq::empty()
        };
        head + errors_from(pfad, ls.drop_first(), refd)
    }
}

fn syntax_errors_core(pfad: &str, content: &str, acc: &mut Vec<String>, refd: Date)
    requires
        refd.wf(),
    ensures
        string_views(final(acc)@) == string_views(old(acc)@) + errors_from(
            pfad@,
            lines_of(content@),
            refd,
        ),
{
    let v = chars_of(content);
    let n = v.len();
    let mut p: usize = 0;
    proof {
        assert(string_views(acc@) + errors_from(pfad@, lines_from(content@, 0), refd)
            =~= string_views(old(acc)@) + errors_from(pfad@, lines_of(content@), refd));
    }
    while p < n
        invariant
            p <= n,
            v@ == content@,
            n == v@.len(),
            refd.wf(),
            string_views(acc@) + errors_from(pfad@, lines_from(content@, p as int), refd)
                == string_views(old(acc)@) + errors_from(pfad@, lines_of(content@), refd),
        decreases n - p,
    {
        let ghost ls = lines_from(content@, p as int);
        let ghost acc0 = acc@;
        let (e, next_p) = next_line(&v, p);
        let line = content.substring_char(p, e);
        if !line.is_empty() && get_termin_from_line(line, Some(refd)).is_none() {
            let mut msg = String::from_str("File: '");
            msg.append(pfad);
            msg.append("':\nLine: ");
            msg.append(line);
            msg.append("\n");
            proof {
                assert(msg@ =~= error_text(pfad@, ls[0]));
            }
            acc.push(msg);
            proof {
                assert(string_views(acc@) =~= string_views(acc0) + seq![error_text(pfad@, ls[0])]);
            }
        }
        proof {
            assert(errors_from(pfad@, ls, refd) == (if ls[0].len() > 0 && parse_line_val(
                ls[0],
                refd,
            ) is None {
                seq![error_text(pfad@, ls[0])]
            } else {
                Seq::<Seq<char>>::empty()
            }) + errors_from(pfad@, ls.drop_first(), refd));
            assert(string_views(acc@) + errors_from(pfad@, lines_from(content@, next_p as int), refd)
                =~= string_views(acc0) + errors_from(pfad@, ls, refd));
        }
        p = next_p;
    }
    proof {
        assert(errors_from(pfad@, lines_from(content@, p as int), refd) =~= Seq::<Seq<char>>::empty());
        assert(string_views(acc@) =~= string_views(acc@) + Seq::<Seq<char>>::empty());
    }
}

/// The appointments of the lines that parse against `datum` and whose
/// resolved date equals `datum`.
pub open spec fn matching_termine(ls: Seq<Seq<char>>, datum: Date) -> Seq<AppointmentView>
    decreases ls.len(),
{
    if ls.len() == 0 {
        Seq::empty()
    } else {
        let head: Seq<AppointmentView> = match parse_line_val(ls[0], datum) {
            Some(a) => if a.date == Some(datum) {
                seq![a]
            } else {
                Seq::empty()
            },
            None => Seq::empty(),
        };
        head + matching_termine(ls.drop_first(), datum)
    }
}

/// Collects, from the file text, the appointments that fall on `datum`.
#[verifier::rlimit(80)]
pub fn accumulate_termine(datum: &Date, termine_aus_datei: &str, termine: &mut Vec<Appointment>)
    requires
        datum.wf(),
    ensures
        appt_views(final(termine)@) == appt_views(old(termine)@) + matching_termine(
            lines_of(termine_aus_datei@),
            *datum,
        ),
        forall|i: int| 0 <= i < old(termine)@.len() ==> final(termine)@[i] == old(termine)@[i],
        forall|i: int|
            old(termine)@.len() <= i < final(termine)@.len() ==> final(termine)@[i].wf(),
{
    let v = chars_of(termine_aus_datei);
    let ghost content = termine_aus_datei@;
    let n = v.len();
    let mut p: usize = 0;
    proof {
        assert(appt_views(termine@) + matching_termine(lines_from(content, 0), *datum)
            =~= appt_views(old(termine)@) + matching_termine(lines_of(content), *datum));
    }
    while p < n
        invariant
            p <= n,
            v@ == content,
            content == termine_aus_datei@,
            n == v@.len(),
            datum.wf(),
            appt_views(termine@) + matching_termine(lines_from(content, p as int), *datum)
                == appt_views(old(termine)@) + matching_termine(lines_of(content), *datum),
            old(termine)@.len() <= termine@.len(),
            forall|i: int| 0 <= i < old(termine)@.len() ==> termine@[i] == old(termine)@[i],
            forall|i: int| old(termine)@.len() <= i < termine@.len() ==> termine@[i].wf(),
        decreases n - p,
    {
        let ghost ls = lines_from(content, p as int);
        let ghost acc0 = termine@;
        let (e, next_p) = next_line(&v, p);
        let line = termine_aus_datei.substring_char(p, e);
        match get_termin_from_line(line, Some(*datum)) {
            Some(a) => {
                let keep: bool = match &a.appointment_date {
                    Some(d) => *d == *datum,
                    None => false,
                };
                if keep {
                    termine.push(a);
                    proof {
                        assert(appt_views(termine@) =~= appt_views(acc0) + seq![a@]);
                    }
                }
            },
            None => {},
        }
        proof {
            assert(appt_views(termine@) + matching_termine(lines_from(content, next_p as int), *datum)
                =~= appt_views(acc0) + matching_termine(ls, *datum));
        }
        p = next_p;
    }
    proof {
        assert(matching_termine(lines_from(content, p as int), *datum) =~= Seq::<
            AppointmentView,
        >::empty());
        assert(appt_views(termine@) =~= appt_views(termine@) + Seq::<AppointmentView>::empty());
    }
}

/// The appointments of the lines that hold the search text and parse
/// against the reference date.
pub open spec fn found_termine(ls: Seq<Seq<char>>, search: Seq<char>, refd: Date) -> Seq<
    AppointmentView,
>
    decreases ls.len(),
{
    if ls.len() == 0 {
        Seq::empty()
    } else {
        let head: Seq<AppointmentView> = if find(ls[0], search) is Some {
            match parse_line_val(ls[0], refd) {
                Some(a) => seq![a],
                None => Seq::empty(),
            }
        } else {
            Seq::empty()
        };
        head + found_termine(ls.drop_first(), search, refd)
    }
}

#[verifier::rlimit(100)]
fn termine_by_search_core(
    search: &String,
    termine_aus_datei: &str,
    termine: &mut Vec<Appointment>,
    refd: Date,
)
    requires
        refd.wf(),
    ensures
        appt_views(final(termine)@) == appt_views(old(termine)@) + found_termine(
            lines_of(termine_aus_datei@),
            search@,
            refd,
        ),
        forall|i: int| 0 <= i < old(termine)@.len() ==> final(termine)@[i] == old(termine)@[i],
        forall|i: int|
            old(termine)@.len() <= i < final(termine)@.len() ==> final(termine)@[i].wf(),
{
    let v = chars_of(termine_aus_datei);
    let sv = chars_of(search.as_str());
    let ghost content = termine_aus_datei@;
    let n = v.len();
    let mut p: usize = 0;
    proof {
        assert(appt_views(termine@) + found_termine(lines_from(content, 0), search@, refd)
            =~= appt_views(old(termine)@) + found_termine(lines_of(content), search@, refd));
    }
    while p < n
        invariant
            p <= n,
            v@ == content,
            content == termine_aus_datei@,
            sv@ == search@,
            n == v@.len(),
            refd.wf(),
            appt_views(termine@) + found_termine(lines_from(content, p as int), search@, refd)
                == appt_views(old(termine)@) + found_termine(lines_of(content), search@, refd),
            old(termine)@.len() <= termine@.len(),
            forall|i: int| 0 <= i < old(termine)@.len() ==> termine@[i] == old(termine)@[i],
            forall|i: int| old(termine)@.len() <= i < termine@.len() ==> termine@[i].wf(),
        decreases n - p,
    {
        let ghost ls = lines_from(content, p as int);
        let ghost acc0 = termine@;
        let (e, next_p) = next_line(&v, p);
        let line = termine_aus_datei.substring_char(p, e);
        let lv = sub_vec(&v, p, e);
        proof {
            assert(lv@ == ls[0]);
        }
        if find_sub(&lv, &sv).is_some() {
            match get_termin_from_line(line, Some(refd)) {
                Some(a) => {
                    termine.push(a);
                    proof {
                        assert(appt_views(termine@) =~= appt_views(acc0) + seq![a@]);
                    }
                },
                None => {},
            }
        }
        proof {
            assert(appt_views(termine@) + found_termine(
                lines_from(content, next_p as int),
                search@,
                refd,
            ) =~= appt_views(acc0) + found_termine(ls, search@, refd));
        }
        p = next_p;
    }
    proof {
        assert(found_termine(lines_from(content, p as int), search@, refd) =~= Seq::<
            AppointmentView,
        >::empty());
        assert(appt_views(termine@) =~= appt_views(termine@) + Seq::<AppointmentView>::empty());
    }
}

/// Collects, from the file text, the appointments of every line that holds
/// the search text; partial dates resolve against today.
pub fn accumulate_termine_by_search(
    search: &String,
    termine_aus_datei: &str,
    termine: &mut Vec<Appointment>,
)
    ensures
        exists|t: Date|
            t.wf() && appt_views(final(termine)@) == appt_views(old(termine)@) + found_termine(
                lines_of(termine_aus_datei@),
                search@,
                t,
            ),
        forall|i: int| 0 <= i < old(termine)@.len() ==> final(termine)@[i] == old(termine)@[i],
        forall|i: int|
            old(termine)@.len() <= i < final(termine)@.len() ==> final(termine)@[i].wf(),
{
    let t = today_reference();
    termine_by_search_core(search, termine_aus_datei, termine, t);
    proof {
        assert(t.wf() && appt_views(termine@) == appt_views(old(termine)@) + found_termine(
            lines_of(termine_aus_datei@),
            search@,
            t,
        ));
    }
}

/// Collects a report line for every non-empty line of the file text that
/// the parser rejects; partial dates resolve against today.
pub fn accumulate_syntax_errors(pfad: &str, termine_aus_datei: &str, acc_errors: &mut Vec<String>)
    ensures
        exists|t: Date|
            t.wf() && string_views(final(acc_errors)@) == string_views(old(acc_errors)@)
                + errors_from(pfad@, lines_of(termine_aus_datei@), t),
{
    let t = today_reference();
    syntax_errors_core(pfad, termine_aus_datei, acc_errors, t);
    proof {
        assert(t.wf() && string_views(acc_errors@) == string_views(old(acc_errors)@) + errors_from(
            pfad@,
            lines_of(termine_aus_datei@),
            t,
        ));
    }
}

// ---------- display order ----------

/// Order on optional dates: a missing date comes first, dates by day.
pub open spec fn opt_date_le(x: Option<Date>, y: Option<Date>) -> bool {
    match (x, y) {
        (Option::None, _) => true,
        (Option::Some(_), Option::None) => false,
        (Option::Some(a), Option::Some(b)) => a.day_number() <= b.day_number(),
    }
}

/// Order on optional start times: a missing time comes first.
pub open spec fn opt_min_le(x: Option<int>, y: Option<int>) -> bool {
    match (x, y) {
        (Option::None, _) => true,
        (Option::Some(_), Option::None) => false,
        (Option::Some(a), Option::Some(b)) => a <= b,
    }
}

/// Strict order on optional start times: a missing time comes first.
pub open spec fn opt_min_gt(x: Option<int>, y: Option<int>) -> bool {
    match (x, y) {
        (Option::None, _) => false,
        (Option::Some(_), Option::None) => true,
        (Option::Some(a), Option::Some(b)) => a > b,
    }
}

/// The listing comparator: by date; on one date by start time, except that
/// an entry without start beside one without stop compares by date alone.
pub open spec fn appt_gt(t1: AppointmentView, t2: AppointmentView) -> bool {
    if t1.start is None && t2.stop is None {
        !opt_date_le(t1.date, t2.date)
    } else if t1.date == t2.date {
        opt_min_gt(t1.start, t2.start)
    } else {
        !opt_date_le(t1.date, t2.date)
    }
}

/// The listing comparator, for callers that order appointments together
/// with data of their own.
pub fn appt_gt_exec(t1: &Appointment, t2: &Appointment) -> (r: bool)
    requires
        t1.wf(),
        t2.wf(),
    ensures
        r == appt_gt(t1@, t2@),
{
    let date_gt: bool = match (&t1.appointment_date, &t2.appointment_date) {
        (Option::None, _) => false,
        (Option::Some(_), Option::None) => true,
        (Option::Some(a), Option::Some(b)) => crate::date::day_number_exec(a)
            > crate::date::day_number_exec(b),
    };
    if t1.appointment_start.is_none() && t2.appointment_stop.is_none() {
        date_gt
    } else {
        let dates_eq: bool = match (&t1.appointment_date, &t2.appointment_date) {
            (Option::None, Option::None) => true,
            (Option::Some(a), Option::Some(b)) => *a == *b,
            _ => false,
        };
        if dates_eq {
            match (&t1.appointment_start, &t2.appointment_start) {
                (Option::None, _) => false,
                (Option::Some(_), Option::None) => true,
                (Option::Some(a), Option::Some(b)) => (a.hour as u16) * 60 + (a.minute as u16) > (
                b.hour as u16) * 60 + (b.minute as u16),
            }
        } else {
            date_gt
        }
    }
}

/// The comparator never orders a neighbour above its successor in both
/// directions at once.
proof fn lemma_appt_gt_asym(a: AppointmentView, b: AppointmentView)
    requires
        appt_gt(a, b),
    ensures
        !appt_gt(b, a),
{
}

/// Sorts the accumulated appointments for display: a permutation in which
/// dates ascend — missing dates first — and, among equal dates, start
/// times ascend.
#[verifier::rlimit(100)]
pub fn sortiere(accumulated_termine: &mut Vec<Appointment>)
    requires
        forall|k: int|
            0 <= k < old(accumulated_termine)@.len() ==> old(accumulated_termine)@[k].wf(),
    ensures
        final(accumulated_termine)@.to_multiset() == old(accumulated_termine)@.to_multiset(),
        forall|k: int| #![trigger final(accumulated_termine)@[k]]
            0 <= k < final(accumulated_termine)@.len() - 1 ==> opt_date_le(
                final(accumulated_termine)@[k]@.date,
                final(accumulated_termine)@[k + 1]@.date,
            ),
        forall|k: int| #![trigger final(accumulated_termine)@[k]]
            0 <= k < final(accumulated_termine)@.len() - 1 && final(accumulated_termine)@[k]@.date
                == final(accumulated_termine)@[k + 1]@.date ==> opt_min_le(
                final(accumulated_termine)@[k]@.start,
                final(accumulated_termine)@[k + 1]@.start,
            ),
        forall|k: int|
            0 <= k < final(accumulated_termine)@.len() ==> final(accumulated_termine)@[k].wf(),
{
    broadcast use vstd::seq_lib::to_multiset_remove, vstd::seq_lib::to_multiset_insert;

    let ghost orig = old(accumulated_termine)@;
    let n = accumulated_termine.len();
    if n <= 1 {
        return;
    }
    let mut i: usize = 1;
    while i < n
        invariant
            1 <= i <= n,
            n == accumulated_termine@.len(),
            accumulated_termine@.to_multiset() == orig.to_multiset(),
            forall|k: int| 0 <= k < n ==> accumulated_termine@[k].wf(),
            forall|k: int| #![trigger accumulated_termine@[k]]
                0 <= k < i - 1 ==> !appt_gt(
                    accumulated_termine@[k]@,
                    accumulated_termine@[k + 1]@,
                ),
        decreases n - i,
    {
        let ghost v0 = accumulated_termine@;
        let x = accumulated_termine.remove(i);
        let ghost v1 = accumulated_termine@;
        let mut j: usize = i;
        while j > 0 && appt_gt_exec(&accumulated_termine[j - 1], &x)
            invariant
                j <= i,
                i < n,
                x.wf(),
                accumulated_termine@ == v1,
                v1 == v0.remove(i as int),
                n == v0.len(),
                forall|k: int| 0 <= k < v1.len() ==> v1[k].wf(),
                forall|k: int| j <= k < i ==> appt_gt(v1[k]@, x@),
            decreases j,
        {
            j = j - 1;
        }
        accumulated_termine.insert(j, x);
        proof {
            broadcast use vstd::seq_lib::group_to_multiset_ensures;
            broadcast use vstd::multiset::group_multiset_axioms;

            let v2 = accumulated_termine@;
            assert(v0[i as int] == x);
            assert(v0.contains(x));
            assert(v0.to_multiset().count(x) > 0);
            assert(v1.to_multiset() == v0.to_multiset().remove(x));
            assert(v2.to_multiset() == v1.to_multiset().insert(x));
            assert(v2.to_multiset() =~= v0.to_multiset());
            assert(v2.to_multiset() == orig.to_multiset());
            assert forall|k: int| #![trigger v2[k]] 0 <= k < i implies !appt_gt(
                v2[k]@,
                v2[k + 1]@,
            ) by {
                if k + 1 < j {
                    assert(v2[k] == v0[k] && v2[k + 1] == v0[k + 1]);
                } else if k + 1 == j {
                    assert(v2[k] == v0[k] && v2[k + 1] == x);
                    assert(!appt_gt(v0[k]@, x@));
                } else if k == j {
                    assert(v2[k] == x && v2[k + 1] == v1[k]);
                    assert(appt_gt(v1[k]@, x@));
                    lemma_appt_gt_asym(v1[k]@, x@);
                } else {
                    assert(v2[k] == v1[k - 1] && v2[k + 1] == v1[k]);
                    assert(v1[k - 1] == v0[k - 1] && v1[k] == v0[k]);
                }
            }
        }
        i = i + 1;
    }
    proof {
        let vf = accumulated_termine@;
        assert forall|k: int| #![trigger vf[k]] 0 <= k < vf.len() - 1 implies opt_date_le(
            vf[k]@.date,
            vf[k + 1]@.date,
        ) && (vf[k]@.date == vf[k + 1]@.date ==> opt_min_le(vf[k]@.start, vf[k + 1]@.start)) by {
            assert(!appt_gt(vf[k]@, vf[k + 1]@));
        }
    }
}

} // verus!
