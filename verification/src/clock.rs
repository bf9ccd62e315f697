use vstd::prelude::*;
use crate::digits::{digit_val, is_digit};
use crate::text::contains_char;
use vstd::arithmetic::div_mod::{
    lemma_fundamental_div_mod, lemma_fundamental_div_mod_converse_mod, lemma_mod_bound,
    lemma_small_mod,
};

verus! {

// Clock times of the notation: `H:MM` or `H.MM`, hours on a 24-hour clock.

/// A clock time of day, minute precision.
#[derive(Clone, Copy, Debug, PartialEq, Eq, Structural)]
pub struct Time {
    pub hour: u8,
    pub minute: u8,
}

impl Time {
    /// A time is well formed when it lies on a 24-hour clock.
    pub open spec fn wf(self) -> bool {
        self.hour < 24 && self.minute < 60
    }

    /// Minutes since midnight.
    pub open spec fn as_minutes(self) -> int {
        self.hour * 60 + self.minute
    }

    pub fn new(hour: u8, minute: u8) -> (r: Time)
        requires
            hour < 24,
            minute < 60,
        ensures
            r.wf(),
            r.hour == hour,
            r.minute == minute,
    {
        Time { hour, minute }
    }

    /// The time `m` minutes after midnight.
    pub fn from_minutes(m: u16) -> (r: Time)
        requires
            m < 1440,
        ensures
            r.wf(),
            r.as_minutes() == m,
    {
        Time { hour: (m / 60) as u8, minute: (m % 60) as u8 }
    }
}

/// The minutes value of an optional time.
pub open spec fn opt_minutes(o: Option<Time>) -> Option<int> {
    match o {
        Some(t) => Some(t.as_minutes()),
        None => None,
    }
}

/// The value, in minutes since midnight, of a clock text `H sep MM`: one or
/// two digits of hour, the separator, one or two digits of minute, nothing
/// else, hour below 24 and minute below 60.  Digit runs are maximal, so a
/// third digit in a row rejects the text.
pub open spec fn clock_val(s: Seq<char>, sep: char) -> Option<int> {
    let hl: int = if s.len() >= 1 && is_digit(s[0]) {
        if s.len() >= 2 && is_digit(s[1]) {
            2
        } else {
            1
        }
    } else {
        0
    };
    if hl == 0 || hl >= s.len() || s[hl] != sep {
        None
    } else {
        let ms = hl + 1;
        let ml: int = if ms < s.len() && is_digit(s[ms]) {
            if ms + 1 < s.len() && is_digit(s[ms + 1]) {
                2
            } else {
                1
            }
        } else {
            0
        };
        if ml == 0 || ms + ml != s.len() {
            None
        } else {
            let h = if hl == 2 {
                digit_val(s[0]) * 10 + digit_val(s[1])
            } else {
                digit_val(s[0])
            };
            let m = if ml == 2 {
                digit_val(s[ms]) * 10 + digit_val(s[ms + 1])
            } else {
                digit_val(s[ms])
            };
            if h <= 23 && m <= 59 {
                Some(h * 60 + m)
            } else {
                None
            }
        }
    }
}

/// The separator a clock text uses: a colon when one occurs, else a dot.
pub open spec fn sep_for(s: Seq<char>) -> char {
    if contains_char(s, ':') {
        ':'
    } else {
        '.'
    }
}

/// Parses the clock text in the range `from..to` of `v`.
pub fn parse_clock(v: &Vec<char>, from: usize, to: usize, sep: char) -> (r: Option<Time>)
    requires
        from <= to <= v.len(),
    ensures
        ({
            let w = v@.subrange(from as int, to as int);
            match r {
                Some(t) => t.wf() && clock_val(w, sep) == Some(t.as_minutes()),
                None => clock_val(w, sep) is None,
            }
        }),
{
    let ghost w = v@.subrange(from as int, to as int);
    let n = to - from;
    let hl: usize = if n >= 1 && v[from] >= '0' && v[from] <= '9' {
        if n >= 2 && v[from + 1] >= '0' && v[from + 1] <= '9' {
            2
        } else {
            1
        }
    } else {
        0
    };
    if hl == 0 || hl >= n || v[from + hl] != sep {
        return None;
    }
    let ms = hl + 1;
    let ml: usize = if ms < n && v[from + ms] >= '0' && v[from + ms] <= '9' {
        if ms + 1 < n && v[from + ms + 1] >= '0' && v[from + ms + 1] <= '9' {
            2
        } else {
            1
        }
    } else {
        0
    };
    if ml == 0 || ms + ml != n {
        return None;
    }
    let h: u8 = if hl == 2 {
        ((v[from] as u8) - 48) * 10 + ((v[from + 1] as u8) - 48)
    } else {
        (v[from] as u8) - 48
    };
    let m: u8 = if ml == 2 {
        ((v[from + ms] as u8) - 48) * 10 + ((v[from + ms + 1] as u8) - 48)
    } else {
        (v[from + ms] as u8) - 48
    };
    if h <= 23 && m <= 59 {
        Some(Time::new(h, m))
    } else {
        None
    }
}

/// Minutes since midnight after letting `delta` minutes pass, wrapping
/// around midnight in either direction.
pub open spec fn wrap_minutes(start: int, delta: int) -> int {
    (start + delta) % 1440
}

/// The stop time the `DURATION` notation means: a count above 8 is taken as
/// minutes, a count of 8 or less as hours, added to the start with silent
/// wrap-around at midnight.
pub open spec fn duration_stop(start: int, count: int) -> int {
    if count > 8 {
        wrap_minutes(start, count)
    } else {
        wrap_minutes(start, count * 60)
    }
}

/// Adds a duration count to a start time, wrapping across midnight.
pub fn add_duration(t: Time, count: i64) -> (r: Time)
    requires
        t.wf(),
    ensures
        r.wf(),
        r.as_minutes() == duration_stop(t.as_minutes(), count as int),
{
    let start: u64 = (t.hour as u64) * 60 + (t.minute as u64);
    if count > 8 {
        let dm: u64 = (count as u64) % 1440;
        let total: u64 = (start + dm) % 1440;
        proof {
            let c = count as int;
            let s = start as int;
            lemma_fundamental_div_mod(c, 1440);
            lemma_fundamental_div_mod(s + dm, 1440);
            lemma_mod_bound(s + dm, 1440);
            lemma_mod_bound(c, 1440);
            assert(s + c == (c / 1440 + (s + dm) / 1440) * 1440 + total) by (nonlinear_arith)
                requires
                    c == 1440 * (c / 1440) + dm,
                    s + dm == 1440 * ((s + dm) / 1440) + total,
            ;
            lemma_fundamental_div_mod_converse_mod(
                s + c,
                1440,
                c / 1440 + (s + dm) / 1440,
                total as int,
            );
        }
        Time::from_minutes(total as u16)
    } else {
        // bring the hour count into 0..24 without signed division
        let hmod: u64 = if count >= 0 {
            (count as u64) % 24
        } else {
            let mag: u64 = ((-(count + 1)) as u64) + 1;
            proof {
                lemma_mod_bound(mag as int, 24);
            }
            (24 - mag % 24) % 24
        };
        proof {
            let c = count as int;
            if count >= 0 {
                assert(hmod == c % 24);
            } else {
                let m = -c;
                lemma_fundamental_div_mod(m, 24);
                lemma_mod_bound(m, 24);
                if m % 24 == 0 {
                    lemma_fundamental_div_mod_converse_mod(c, 24, -(m / 24), 0);
                } else {
                    lemma_small_mod((24 - m % 24) as nat, 24);
                    lemma_fundamental_div_mod_converse_mod(c, 24, -(m / 24) - 1, 24 - m % 24);
                }
                assert(hmod == c % 24);
            }
            lemma_mod_bound(c, 24);
        }
        let total: u64 = (start + hmod * 60) % 1440;
        proof {
            let c = count as int;
            let s = start as int;
            let q = c / 24;
            lemma_fundamental_div_mod(c, 24);
            lemma_fundamental_div_mod(s + (hmod as int) * 60, 1440);
            lemma_mod_bound(s + (hmod as int) * 60, 1440);
            assert(s + c * 60 == (q + (s + (hmod as int) * 60) / 1440) * 1440 + total) by (nonlinear_arith)
                requires
                    c == 24 * q + hmod as int,
                    s + (hmod as int) * 60 == 1440 * ((s + (hmod as int) * 60) / 1440) + total,
            ;
            lemma_fundamental_div_mod_converse_mod(
                s + c * 60,
                1440,
                q + (s + (hmod as int) * 60) / 1440,
                total as int,
            );
        }
        Time::from_minutes(total as u16)
    }
}

} // verus!
