use vstd::prelude::*;
use vstd::string::StringExecFns;
use crate::clock::Time;
use crate::date::Date;

verus! {

// Text rendering of times and dates, as the reminder files write them.

/// The character of one decimal digit.
pub open spec fn digit_char(d: int) -> char {
    (((d + 48) as u8) as char)
}

/// A number below one hundred as two digits, zero padded.
pub open spec fn two_digits(n: int) -> Seq<char> {
    seq![digit_char(n / 10), digit_char(n % 10)]
}

/// A number below ten thousand as four digits, zero padded.
pub open spec fn four_digits(n: int) -> Seq<char> {
    seq![digit_char(n / 1000), digit_char((n / 100) % 10), digit_char((n / 10) % 10), digit_char(
        n % 10,
    )]
}

/// A year's digits: four places, zero padded, and longer years in full.
pub open spec fn year_digits(n: int) -> Seq<char> {
    if n <= 9999 {
        four_digits(n)
    } else if n <= 99999 {
        seq![digit_char(n / 10000)] + four_digits(n % 10000)
    } else {
        seq![digit_char(n / 100000), digit_char((n / 10000) % 10)] + four_digits(n % 10000)
    }
}

/// A year with its sign.
pub open spec fn year_text(y: int) -> Seq<char> {
    if y < 0 {
        seq!['-'] + year_digits(-y)
    } else {
        year_digits(y)
    }
}

/// A clock time as `HH:MM`.
pub open spec fn time_colon_text(t: Time) -> Seq<char> {
    two_digits(t.hour as int) + seq![':'] + two_digits(t.minute as int)
}

/// A clock time as `HH.MM`.
pub open spec fn time_dot_text(t: Time) -> Seq<char> {
    two_digits(t.hour as int) + seq!['.'] + two_digits(t.minute as int)
}

/// A date as `DD.MM.YYYY`.
pub open spec fn date_dmy_text(d: Date) -> Seq<char> {
    two_digits(d.day as int) + seq!['.'] + two_digits(d.month as int) + seq!['.'] + year_text(
        d.year as int,
    )
}

/// One digit as borrowed text.
pub fn digit_str(d: u8) -> (r: &'static str)
    requires
        d < 10,
    ensures
        r@ == seq![digit_char(d as int)],
        r@.len() == 1,
{
    proof {
        reveal_strlit("0");
        reveal_strlit("1");
        reveal_strlit("2");
        reveal_strlit("3");
        reveal_strlit("4");
        reveal_strlit("5");
        reveal_strlit("6");
        reveal_strlit("7");
        reveal_strlit("8");
        reveal_strlit("9");
    }
    let r: &'static str = if d == 0 {
        "0"
    } else if d == 1 {
        "1"
    } else if d == 2 {
        "2"
    } else if d == 3 {
        "3"
    } else if d == 4 {
        "4"
    } else if d == 5 {
        "5"
    } else if d == 6 {
        "6"
    } else if d == 7 {
        "7"
    } else if d == 8 {
        "8"
    } else {
        "9"
    };
    proof {
        assert(r@ =~= seq![digit_char(d as int)]);
    }
    r
}

/// Appends a number below one hundred as two digits.
pub fn append_two_digits(s: &mut String, n: u8)
    requires
        n < 100,
    ensures
        final(s)@ == old(s)@ + two_digits(n as int),
{
    s.append(digit_str(n / 10));
    s.append(digit_str(n % 10));
    proof {
        assert(old(s)@ + seq![digit_char(n as int / 10)] + seq![digit_char(n as int % 10)] =~= old(
            s,
        )@ + two_digits(n as int));
    }
}

/// Appends a clock time as `HH:MM` or `HH.MM`.
pub fn append_time(s: &mut String, t: Time, colon: bool)
    requires
        t.wf(),
    ensures
        colon ==> final(s)@ == old(s)@ + time_colon_text(t),
        !colon ==> final(s)@ == old(s)@ + time_dot_text(t),
{
    append_two_digits(s, t.hour);
    if colon {
        s.append(":");
    } else {
        s.append(".");
    }
    append_two_digits(s, t.minute);
    proof {
        reveal_strlit(":");
        reveal_strlit(".");
        if colon {
            assert(old(s)@ + two_digits(t.hour as int) + ":"@ + two_digits(t.minute as int) =~= old(
                s,
            )@ + time_colon_text(t));
        } else {
            assert(old(s)@ + two_digits(t.hour as int) + "."@ + two_digits(t.minute as int) =~= old(
                s,
            )@ + time_dot_text(t));
        }
    }
}

/// Appends a year's digits, zero padded to four places.
#[verifier::rlimit(30)]
fn append_year_digits(s: &mut String, n: u32)
    requires
        n <= 999999,
    ensures
        final(s)@ == old(s)@ + year_digits(n as int),
{
    if n <= 9999 {
        append_two_digits(s, (n / 100) as u8);
        append_two_digits(s, (n % 100) as u8);
        proof {
            assert(two_digits(n as int / 100) + two_digits(n as int % 100) =~= four_digits(
                n as int,
            ));
        }
    } else if n <= 99999 {
        s.append(digit_str((n / 10000) as u8));
        append_two_digits(s, ((n % 10000) / 100) as u8);
        append_two_digits(s, (n % 100) as u8);
        proof {
            assert((n as int % 10000) % 100 == n as int % 100) by (nonlinear_arith);
            assert(seq![digit_char(n as int / 10000)] + (two_digits((n as int % 10000) / 100)
                + two_digits(n as int % 100)) =~= year_digits(n as int));
        }
    } else {
        s.append(digit_str((n / 100000) as u8));
        s.append(digit_str(((n / 10000) % 10) as u8));
        append_two_digits(s, ((n % 10000) / 100) as u8);
        append_two_digits(s, (n % 100) as u8);
        proof {
            assert((n as int % 10000) % 100 == n as int % 100) by (nonlinear_arith);
            assert(seq![digit_char(n as int / 100000)] + seq![digit_char((n as int / 10000) % 10)]
                + (two_digits((n as int % 10000) / 100) + two_digits(n as int % 100))
                =~= year_digits(n as int));
        }
    }
}

/// Appends a year with its sign.
pub fn append_year(s: &mut String, y: i32)
    requires
        crate::date::MIN_YEAR <= y <= crate::date::MAX_YEAR,
    ensures
        final(s)@ == old(s)@ + year_text(y as int),
{
    if y < 0 {
        s.append("-");
        append_year_digits(s, (-(y as i64)) as u32);
        proof {
            reveal_strlit("-");
            assert(old(s)@ + "-"@ + year_digits(-(y as int)) =~= old(s)@ + year_text(y as int));
        }
    } else {
        append_year_digits(s, y as u32);
    }
}

/// Appends a date as `DD.MM.YYYY`.
pub fn append_date_dmy(s: &mut String, d: &Date)
    requires
        d.wf(),
    ensures
        final(s)@ == old(s)@ + date_dmy_text(*d),
{
    let ghost s0 = old(s)@;
    append_two_digits(s, d.day);
    s.append(".");
    append_two_digits(s, d.month);
    s.append(".");
    append_year(s, d.year);
    proof {
        reveal_strlit(".");
        assert(final(s)@ =~= s0 + date_dmy_text(*d));
    }
}

} // verus!
