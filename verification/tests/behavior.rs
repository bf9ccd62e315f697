use rremind::date::{add_or_subtract_days, weekday_of, Date};
use rremind::parser::{
    as_date, between, extract_datum_text, extract_description, get_termin_from_line,
    get_termin_without_month, get_time_parser, strip_final_comma,
};
use rremind::report::{
    accumulate_syntax_errors, accumulate_termine, accumulate_termine_by_search, get_zeitangabe,
    seems_parseable, sortiere, RRemindFolders,
};
use rremind::{Appointment, Time};

const NO_INFO: &str =
    "Appointment contains no information (add 'msg' or 'rem' to the line to change that)";

fn date(year: i32, month: u8, day: u8) -> Date {
    Date { year, month, day }
}

fn time(hour: u8, minute: u8) -> Time {
    Time { hour, minute }
}

#[test]
fn full_date_with_duration_hour() {
    let tmp = get_termin_from_line("2024 nov 6 at 10:00 DURATION 1 msg my birthday", None).unwrap();
    assert_eq!(tmp.appointment_date, Some(date(2024, 11, 6)));
    assert_eq!(tmp.appointment_start, Some(time(10, 0)));
    assert_eq!(tmp.appointment_stop, Some(time(11, 0)));
    assert_eq!(tmp.appointment_description, "my birthday");
    assert!(tmp.appointment_is_full_date);
}

#[test]
fn duration_above_eight_counts_minutes() {
    let tmp = get_termin_from_line("2024 nov 6 at 10:00 DURATION 90 msg x", None).unwrap();
    assert_eq!(tmp.appointment_stop, Some(time(11, 30)));
}

#[test]
fn duration_of_eight_counts_hours() {
    let tmp = get_termin_from_line("2024 nov 6 at 10:00 DURATION 8 msg x", None).unwrap();
    assert_eq!(tmp.appointment_stop, Some(time(18, 0)));
}

#[test]
fn duration_wraps_past_midnight() {
    let tmp = get_termin_from_line("2024 nov 6 at 23:00 DURATION 120 msg x", None).unwrap();
    assert_eq!(tmp.appointment_stop, Some(time(1, 0)));
}

#[test]
fn negative_duration_wraps_backwards() {
    let tmp = get_termin_from_line("2024 nov 6 at 23:00 DURATION -60 msg x", None).unwrap();
    assert_eq!(tmp.appointment_stop, Some(time(11, 0)));
}

#[test]
fn range_takes_literal_endpoints() {
    let tmp = get_termin_from_line("Mon at 10:00-9:00 1, my birthday", None).unwrap();
    assert_eq!(tmp.appointment_start, Some(time(10, 0)));
    assert_eq!(tmp.appointment_stop, Some(time(9, 0)));
    assert_eq!(tmp.appointment_description, "my birthday");
}

#[test]
fn unknown_first_word_rejects_line() {
    assert!(get_termin_from_line("Mun at 10:00 DURATION 1 msg my birthday", None).is_none());
}

#[test]
fn leading_whitespace_defeats_month_matching() {
    // the month is matched once on the first word and once on the whole
    // line, so a line that does not begin with the month text is rejected
    assert!(get_termin_from_line(" nov 1 msg x", None).is_none());
}

#[test]
fn month_day_line_has_no_year_flag() {
    let tmp = get_termin_from_line("nov 1 msg birthday", None).unwrap();
    assert!(!tmp.appointment_is_full_date);
    let d = tmp.appointment_date.unwrap();
    assert_eq!(d.month, 11);
    assert_eq!(d.day, 1);
}

#[test]
fn parsing_twice_gives_identical_results() {
    let refd = date(2024, 10, 5);
    let line = "Mon at 10:00 DURATION 1 msg my birthday";
    let a = get_termin_from_line(line, Some(refd));
    let b = get_termin_from_line(line, Some(refd));
    assert_eq!(a, b);
}

#[test]
fn weekday_resolves_forward_from_reference() {
    // October 5, 2024 is a Saturday; the next Monday is October 7.
    let refd = date(2024, 10, 5);
    assert_eq!(weekday_of(&refd), 5);
    let tmp = get_termin_without_month("mon msg lunch", Some(refd)).unwrap();
    assert_eq!(tmp.appointment_date, Some(date(2024, 10, 7)));
}

#[test]
fn weekday_on_reference_day_resolves_to_it() {
    let refd = date(2024, 10, 5);
    let tmp = get_termin_without_month("sat msg lunch", Some(refd)).unwrap();
    assert_eq!(tmp.appointment_date, Some(refd));
}

#[test]
fn invalid_day_keeps_full_date_flag() {
    let tmp = get_termin_from_line("2023 feb 29 msg x", None).unwrap();
    assert!(tmp.appointment_is_full_date);
    assert_eq!(tmp.appointment_date, None);
    let leap = get_termin_from_line("2024 feb 29 msg x", None).unwrap();
    assert_eq!(leap.appointment_date, Some(date(2024, 2, 29)));
}

#[test]
fn missing_marker_yields_placeholder() {
    let tmp = get_termin_from_line("2024 nov 6 at 10:00 DURATION 1", None).unwrap();
    assert_eq!(tmp.appointment_description, NO_INFO);
    assert_eq!(tmp.appointment_start, Some(time(10, 0)));
    assert_eq!(tmp.appointment_stop, Some(time(11, 0)));
}

#[test]
fn marker_at_line_end_yields_placeholder() {
    let tmp = get_termin_from_line("jan 5 msg ", None).unwrap();
    assert_eq!(tmp.appointment_description, NO_INFO);
}

#[test]
fn duration_count_may_end_the_line() {
    let tmp = get_termin_from_line("mon at 10:00 DURATION 5", None).unwrap();
    assert_eq!(tmp.appointment_start, Some(time(10, 0)));
    assert_eq!(tmp.appointment_stop, Some(time(15, 0)));
}

#[test]
fn duration_start_accepts_dot_separator() {
    let tmp = get_termin_from_line("mon at 10.30 DURATION 2 msg x", None).unwrap();
    assert_eq!(tmp.appointment_start, Some(time(10, 30)));
    assert_eq!(tmp.appointment_stop, Some(time(12, 30)));
}

#[test]
fn bare_range_stop_accepts_dot_separator() {
    let tmp = get_termin_from_line("mon at 1:00-2.30", None).unwrap();
    assert_eq!(tmp.appointment_start, Some(time(1, 0)));
    assert_eq!(tmp.appointment_stop, Some(time(2, 30)));
}

#[test]
fn spaced_range_stop_is_read_in_full() {
    let tmp = get_termin_from_line("mon at 9:00 - 10:35 msg x", None).unwrap();
    assert_eq!(tmp.appointment_start, Some(time(9, 0)));
    assert_eq!(tmp.appointment_stop, Some(time(10, 35)));
}

#[test]
fn date_alt_text_is_trimmed_prefix() {
    let tmp = get_termin_from_line("nov 1 at 10:00 msg x", None).unwrap();
    assert_eq!(tmp.appointment_date_alt_text, "nov 1");
    let no_marker = get_termin_from_line("nov 1 msg x", None).unwrap();
    assert_eq!(no_marker.appointment_date_alt_text, "nov 1 msg x");
}

#[test]
fn extract_helpers_work_alone() {
    assert_eq!(extract_description("jan 5 rem water the plants"), "water the plants");
    assert_eq!(extract_datum_text("nov 1 AT 10:00 msg x"), "nov 1");
    assert_eq!(strip_final_comma("24,"), "24");
    assert_eq!(strip_final_comma("24"), "24");
    assert_eq!(get_time_parser("10:15"), "%H:%M");
    assert_eq!(get_time_parser("10.15"), "%H.%M");
}

#[test]
fn between_picks_enclosed_text() {
    assert_eq!(between("key=value;rest", "key=", ";"), "value");
    assert_eq!(between("abc", "x", "b"), "");
    assert_eq!(between("abc", "a", "z"), "");
    assert_eq!(between("rremind_files=/tmp/a\nmore", "rremind_files=", "\n"), "/tmp/a");
}

#[test]
fn stand_alone_dates() {
    assert_eq!(as_date("2024-1-13"), Some(date(2024, 1, 13)));
    assert_eq!(as_date("13.1.2024"), Some(date(2024, 1, 13)));
    assert_eq!(as_date(" 2024-1-13"), Some(date(2024, 1, 13)));
    assert_eq!(as_date("13.13.2024"), None);
    assert_eq!(as_date("garbage"), None);
}

#[test]
fn seems_parseable_looks_at_first_word() {
    assert_eq!(seems_parseable("mon at 10:00"), Some(true));
    assert_eq!(seems_parseable("jan 5 msg x"), Some(true));
    assert_eq!(seems_parseable("xyz 5"), None);
}

#[test]
fn is_past_needs_full_date() {
    let today = date(2024, 11, 10);
    let past = get_termin_from_line("2024 nov 6 msg x", None).unwrap();
    assert!(past.is_past(&today, 1));
    assert!(!past.is_past(&today, 4));
    let recurring = get_termin_from_line("nov 6 msg x", None).unwrap();
    assert!(!recurring.is_past(&today, 0));
    assert!(!recurring.is_past(&today, 1000));
}

#[test]
fn rrem_string_round_trip() {
    let tmp = get_termin_from_line("2024 nov 6 at 10:00 DURATION 1 msg my birthday", None).unwrap();
    assert_eq!(tmp.to_rrem_string(), "06.11.2024 10:00 - 11:00, my birthday");
    assert_eq!(tmp.get_time(), "10:00 - 11:00");
    assert_eq!(get_zeitangabe(&tmp), " (10.00-11.00 Uhr)");
    let partial = get_termin_from_line("nov 1 at 10:00 msg x", None).unwrap();
    assert_eq!(partial.to_rrem_string(), "nov 1");
    assert_eq!(partial.get_time(), "10:00");
    assert_eq!(get_zeitangabe(&partial), " (10.00 Uhr)");
}

#[test]
fn config_file_text_lists_both_folders() {
    let folders = RRemindFolders {
        dir_rem_files: "/tmp/rem".to_string(),
        dir_rem_archive: "/tmp/arc".to_string(),
        b_merge_archive: false,
    };
    assert_eq!(
        folders.to_config_file_text(),
        "rremind_files=/tmp/rem\nrremind_archive=/tmp/arc\n"
    );
}

#[test]
fn accumulate_termine_filters_by_date() {
    let datum = date(2024, 11, 6);
    let content = "2024 nov 6 at 10:00 DURATION 1 msg a\n2024 nov 7 msg b\nmon msg c";
    let mut termine: Vec<Appointment> = Vec::new();
    accumulate_termine(&datum, content, &mut termine);
    assert_eq!(termine.len(), 1);
    assert_eq!(termine[0].appointment_description, "a");
}

#[test]
fn accumulate_syntax_errors_reports_bad_lines() {
    let content = "garbage !!\n\nnov 1 msg x";
    let mut errors: Vec<String> = Vec::new();
    accumulate_syntax_errors("f.rem", content, &mut errors);
    assert_eq!(errors.len(), 1);
    assert_eq!(errors[0], "File: 'f.rem':\nLine: garbage !!\n");
}

#[test]
fn search_finds_matching_lines() {
    let content = "nov 1 msg birthday\ndec 24 msg christmas";
    let mut termine: Vec<Appointment> = Vec::new();
    accumulate_termine_by_search(&"birthday".to_string(), content, &mut termine);
    assert_eq!(termine.len(), 1);
    assert_eq!(termine[0].appointment_description, "birthday");
}

#[test]
fn sortiere_orders_by_date() {
    let refd = date(2024, 11, 6);
    let mut termine: Vec<Appointment> = Vec::new();
    termine.push(get_termin_from_line("2024 nov 10 msg late", Some(refd)).unwrap());
    termine.push(get_termin_from_line("2024 nov 6 msg early", Some(refd)).unwrap());
    termine.push(get_termin_from_line("2023 feb 30 msg undated", Some(refd)).unwrap());
    sortiere(&mut termine);
    assert_eq!(termine[0].appointment_description, "undated");
    assert_eq!(termine[1].appointment_description, "early");
    assert_eq!(termine[2].appointment_description, "late");
}

#[test]
fn day_arithmetic_crosses_boundaries() {
    let mut d = date(2024, 2, 28);
    assert!(add_or_subtract_days(&mut d, 1));
    assert_eq!(d, date(2024, 2, 29));
    assert!(add_or_subtract_days(&mut d, 1));
    assert_eq!(d, date(2024, 3, 1));
    assert!(add_or_subtract_days(&mut d, -60));
    assert_eq!(d, date(2024, 1, 1));
    assert!(add_or_subtract_days(&mut d, -1));
    assert_eq!(d, date(2023, 12, 31));
    let before = d;
    assert!(!add_or_subtract_days(&mut d, i64::MAX));
    assert_eq!(d, before);
}

#[test]
fn weekday_of_known_dates() {
    // January 1, 2000 was a Saturday.
    assert_eq!(weekday_of(&date(2000, 1, 1)), 5);
    // November 6, 2024 was a Wednesday.
    assert_eq!(weekday_of(&date(2024, 11, 6)), 2);
}
