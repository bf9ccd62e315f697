use chrono::Datelike;
use rremind::date::{weekday_of, Date};
use rremind::parser::{
    get_month_as_no, get_termin_from_full_date, get_termin_from_line, get_termin_without_month,
    get_termin_without_year, is_date, is_month,
};
use rremind::Time;

fn current_year() -> i32 {
    chrono::offset::Local::now().date_naive().year()
}

fn time(hour: u8, minute: u8) -> Time {
    Time { hour, minute }
}

#[test]
fn parsing() {
    let s_test = "2024-1-13";
    assert!(is_date(s_test));
    let s_test = "13.1.2024";
    assert!(is_date(s_test));
    let s_test = "13.13.2024";
    assert!(!is_date(s_test));
}

#[test]
fn parsing_no_year1() {
    let s_test = "jan 6 msg birthday";
    assert_eq!(is_month(&s_test), true);
    assert_eq!(get_month_as_no(&s_test), Some(1));
}

#[test]
fn parsing_no_year2() {
    let s_test = "nov 1 msg birthday";
    assert!(get_termin_without_year(&s_test, None).is_some());

    let s_test = "FeBrUARY 11 msg birthday";
    assert!(get_termin_without_year(&s_test, None).is_some());

    let s_test = "PFeBrUARYo 11 msg birthday";
    assert!(get_termin_without_year(&s_test, None).is_none());
}

#[test]
fn parsing_no_year3() {
    let s_test = "nov 1 msg birthday";
    let expected = Date { year: current_year(), month: 11, day: 1 };
    assert_eq!(
        get_termin_without_year(&s_test, None).unwrap().appointment_date,
        Some(expected)
    );
}

#[test]
fn parsing_no_year4() {
    let s_test = "asdf 1 msg birthday";
    assert!(get_termin_without_year(&s_test, None).is_none());
}

#[test]
fn parsing_no_year5() {
    let s_test = "nov mon msg birthday";
    assert!(get_termin_without_year(&s_test, None).is_none());
}

#[test]
fn parsing_weekly() {
    let s_test = "mon at 10:00 msg birthday";
    assert!(get_termin_without_month(&s_test, None).is_some());
}

#[test]
fn parsing_weekly4() {
    let s_test = "ton at 10:00 msg birthday";
    assert!(get_termin_without_month(&s_test, None).is_none());
}

#[test]
fn parsing_weekly2() {
    let s_test = "mon at 10:00 msg birthday";
    let monday = get_termin_without_month(&s_test, None)
        .unwrap()
        .appointment_date
        .unwrap();
    assert_eq!(weekday_of(&monday), 0);

    let s_test = "Wednesday at 10:00 msg birthday";
    assert!(get_termin_without_month(&s_test, None).is_some());
    let wednesday = get_termin_without_month(&s_test, None)
        .unwrap()
        .appointment_date
        .unwrap();
    assert_eq!(weekday_of(&wednesday), 2);
    assert!(get_termin_without_month(&s_test, None)
        .unwrap()
        .appointment_start
        .is_some());
    assert_eq!(
        get_termin_without_month(&s_test, None)
            .unwrap()
            .appointment_start
            .unwrap(),
        time(10, 0)
    );
    assert!(get_termin_without_month(&s_test, None)
        .unwrap()
        .appointment_stop
        .is_none());
}

#[test]
fn parsing_full_date() {
    let s_test = "2024 nov 6 aT 10:00 DURATION 1 msg my birthday";
    assert!(get_termin_from_full_date(&s_test).is_some());
    assert_eq!(
        get_termin_from_full_date(&s_test)
            .unwrap()
            .appointment_date
            .unwrap()
            .month,
        11
    );
    assert_eq!(
        get_termin_from_full_date(&s_test)
            .unwrap()
            .appointment_start
            .unwrap(),
        time(10, 0)
    );
}

#[test]
fn parsing_comprehensive1() {
    let s_test = "2024 nov 6 aT 10:00 DURATION 1 msg my birthday";
    assert!(get_termin_from_line(&s_test, None).is_some());
    assert_eq!(
        get_termin_from_line(&s_test, None)
            .unwrap()
            .appointment_date
            .unwrap()
            .month,
        11
    );
}

#[test]
fn parsing_comprehensive2() {
    let s_test = "nov 6 aT 10:00 DURATION 1 msg my birthday";
    assert!(get_termin_from_line(&s_test, None).is_some());
    assert_eq!(
        get_termin_from_line(&s_test, None)
            .unwrap()
            .appointment_date
            .unwrap()
            .month,
        11
    );
}

#[test]
fn parsing_comprehensive3() {
    let s_test = "Mon aT 10:00 DURATION 1 msg my birthday";
    assert!(get_termin_from_line(&s_test, None).is_some());
    let resolved = get_termin_from_line(&s_test, None)
        .unwrap()
        .appointment_date
        .unwrap();
    assert_eq!(weekday_of(&resolved), 0);
}

#[test]
fn parsing_comprehensive4() {
    let s_test = "Mun aT 10:00 DURATION 1 msg my birthday";
    assert!(get_termin_from_line(&s_test, None).is_none());
}

#[test]
fn parsing_comprehensive5() {
    let s_test = "Mon aT 10:00 DURATION 1 msg my birthday";
    assert_eq!(
        get_termin_from_line(&s_test, None)
            .unwrap()
            .appointment_description,
        "my birthday"
    );
}

#[test]
fn parsing_comprehensive6() {
    let s_test = "Mon aT 10:00 DURATION 1 ß, my birthdayß";
    assert_eq!(
        get_termin_from_line(&s_test, None)
            .unwrap()
            .appointment_description,
        "my birthdayß"
    );
}

#[test]
fn parsing_comprehensive7() {
    let s_test = "Mon aT 10:00-11:00 1 ß, my birthdayß";
    let tmp = get_termin_from_line(&s_test, None).unwrap();
    assert_eq!(tmp.appointment_description, "my birthdayß");
    assert_eq!(tmp.appointment_start, Some(time(10, 0)));
    assert_eq!(tmp.appointment_stop, Some(time(11, 0)));
}

#[test]
fn parsing_comprehensive8() {
    let s_test = "Mon aT 10:00 - 11:00 1 ß, my birthdayß";
    let tmp = get_termin_from_line(&s_test, None).unwrap();
    assert_eq!(tmp.appointment_description, "my birthdayß");
    assert_eq!(tmp.appointment_stop, Some(time(11, 0)));
}

#[test]
fn parsing_comprehensive9() {
    let s_test = "Mon aT 10:00-9:00 1 ß, my birthdayß";
    let tmp = get_termin_from_line(&s_test, None).unwrap();
    assert_eq!(tmp.appointment_description, "my birthdayß");
    assert_eq!(tmp.appointment_stop, Some(time(9, 0)));
    assert_eq!(tmp.appointment_start, Some(time(10, 0)));
}

#[test]
fn parsing_comprehensive10() {
    let s_test = "Mon aT 10:00-9:00 1 ß, my birthdayß";
    let tmp = get_termin_from_line(&s_test, None).unwrap();
    assert_eq!(tmp.appointment_description, "my birthdayß");
    assert_eq!(tmp.appointment_stop, Some(time(9, 0)));
    assert_eq!(tmp.appointment_start, Some(time(10, 0)));
}

#[test]
fn parsing_comprehensive11() {
    let s_test = "Mon aT 10:00 - 9:00 1 ß, my birthdayß";
    let tmp = get_termin_from_line(&s_test, None).unwrap();
    assert_eq!(tmp.appointment_description, "my birthdayß");
    assert_eq!(tmp.appointment_stop, Some(time(9, 0)));
    assert_eq!(tmp.appointment_start, Some(time(10, 0)));
}

#[test]
fn parsing_comprehensive12() {
    let s_test = "Mon aT 1:00 - 9:00 1 ß, my birthdayß";
    let tmp = get_termin_from_line(&s_test, None).unwrap();
    assert_eq!(tmp.appointment_description, "my birthdayß");
    assert_eq!(tmp.appointment_stop, Some(time(9, 0)));
    assert_eq!(tmp.appointment_start, Some(time(1, 0)));
}

#[test]
fn parsing_comprehensive13() {
    let s_test = "Mon aT 1:00-9.00 1 ß, my birthdayß";
    let tmp = get_termin_from_line(&s_test, None).unwrap();
    assert_eq!(tmp.appointment_description, "my birthdayß");
    assert_eq!(tmp.appointment_stop, Some(time(9, 0)));
    assert_eq!(tmp.appointment_start, Some(time(1, 0)));
}

#[test]
fn parsing_comprehensive14() {
    let s_test = "2024 Nov 23 AT 10.30-12:30, Kammerorchester Börsensaal Hauptprobe";
    let tmp = get_termin_from_line(&s_test, None).unwrap();
    assert_eq!(
        tmp.appointment_description,
        "Kammerorchester Börsensaal Hauptprobe"
    );
    assert_eq!(tmp.appointment_stop, Some(time(12, 30)));
    assert_eq!(tmp.appointment_start, Some(time(10, 30)));
}

#[test]
fn parsing_comprehensive15() {
    let s_test = "Nov 24, Sonntag";
    let tmp = get_termin_from_line(&s_test, None).unwrap();
    assert_eq!(tmp.appointment_description, "Sonntag");
}
