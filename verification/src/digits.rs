use vstd::prelude::*;

verus! {

// Decimal number parsing, the way the standard library's `str::parse` accepts
// integers: an optional sign, then one or more ASCII digits, rejected on
// overflow of the target width.

/// ASCII decimal digit.
pub open spec fn is_digit(c: char) -> bool {
    '0' <= c && c <= '9'
}

/// Numeric value of one digit character.
pub open spec fn digit_val(c: char) -> int {
    c as u32 - '0' as u32
}

/// Every character of `s` is a digit.
pub open spec fn all_digits(s: Seq<char>) -> bool {
    forall|i: int| 0 <= i < s.len() ==> is_digit(s[i])
}

/// Value of a digit string, most significant digit first.
pub open spec fn digits_val(s: Seq<char>) -> int
    decreases s.len(),
{
    if s.len() == 0 {
        0
    } else {
        digits_val(s.drop_last()) * 10 + digit_val(s.last())
    }
}

/// What `str::parse::<u64>` yields: optional `+`, digits, value in range.
pub open spec fn parse_u64_spec(s: Seq<char>) -> Option<int> {
    let t = if s.len() > 0 && s[0] == '+' {
        s.drop_first()
    } else {
        s
    };
    if t.len() > 0 && all_digits(t) && digits_val(t) <= u64::MAX {
        Some(digits_val(t))
    } else {
        None
    }
}

/// What `str::parse::<i64>` yields.
pub open spec fn parse_i64_spec(s: Seq<char>) -> Option<int> {
    if s.len() > 0 && s[0] == '-' {
        let t = s.drop_first();
        if t.len() > 0 && all_digits(t) && -digits_val(t) >= i64::MIN {
            Some(-digits_val(t))
        } else {
            None
        }
    } else {
        let t = if s.len() > 0 && s[0] == '+' {
            s.drop_first()
        } else {
            s
        };
        if t.len() > 0 && all_digits(t) && digits_val(t) <= i64::MAX {
            Some(digits_val(t))
        } else {
            None
        }
    }
}

/// What `str::parse::<i32>` yields.
pub open spec fn parse_i32_spec(s: Seq<char>) -> Option<int> {
    if s.len() > 0 && s[0] == '-' {
        let t = s.drop_first();
        if t.len() > 0 && all_digits(t) && -digits_val(t) >= i32::MIN {
            Some(-digits_val(t))
        } else {
            None
        }
    } else {
        let t = if s.len() > 0 && s[0] == '+' {
            s.drop_first()
        } else {
            s
        };
        if t.len() > 0 && all_digits(t) && digits_val(t) <= i32::MAX {
            Some(digits_val(t))
        } else {
            None
        }
    }
}

/// Index right after the run of digits that begins at `i` (or the length).
pub open spec fn digit_run_end(s: Seq<char>, i: int) -> int
    decreases s.len() - i,
{
    if i < 0 || i >= s.len() {
        s.len() as int
    } else if is_digit(s[i]) {
        digit_run_end(s, i + 1)
    } else {
        i
    }
}

pub proof fn lemma_digit_run_bounds(s: Seq<char>, i: int)
    requires
        0 <= i <= s.len(),
    ensures
        i <= digit_run_end(s, i) <= s.len(),
        forall|j: int| i <= j < digit_run_end(s, i) ==> is_digit(s[j]),
        digit_run_end(s, i) < s.len() ==> !is_digit(s[digit_run_end(s, i)]),
    decreases s.len() - i,
{
    if i < s.len() && is_digit(s[i]) {
        lemma_digit_run_bounds(s, i + 1);
    }
}

/// Executable scan to the end of the digit run that begins at `i`.
pub fn scan_digits(v: &Vec<char>, i: usize) -> (r: usize)
    requires
        i <= v.len(),
    ensures
        r == digit_run_end(v@, i as int),
{
    let mut j: usize = i;
    while j < v.len() && v[j] >= '0' && v[j] <= '9'
        invariant
            i <= j <= v.len(),
            digit_run_end(v@, i as int) == digit_run_end(v@, j as int),
        decreases v.len() - j,
    {
        j = j + 1;
    }
    j
}

proof fn lemma_digits_val_nonneg(s: Seq<char>)
    requires
        all_digits(s),
    ensures
        digits_val(s) >= 0,
    decreases s.len(),
{
    if s.len() > 0 {
        assert(all_digits(s.drop_last())) by {
            assert(forall|i: int|
                0 <= i < s.len() - 1 ==> s.drop_last()[i] == s[i] && is_digit(s[i]));
        }
        lemma_digits_val_nonneg(s.drop_last());
    }
}

/// Appending digits never shrinks the value.
proof fn lemma_digits_val_prefix(s: Seq<char>, k: int)
    requires
        all_digits(s),
        0 <= k <= s.len(),
    ensures
        digits_val(s) >= digits_val(s.subrange(0, k)),
    decreases s.len() - k,
{
    if k < s.len() {
        let p = s.subrange(0, k);
        let q = s.subrange(0, k + 1);
        assert(q.drop_last() =~= p);
        assert(all_digits(p));
        lemma_digits_val_nonneg(p);
        assert(digits_val(q) == digits_val(p) * 10 + digit_val(q.last()));
        lemma_digits_val_prefix(s, k + 1);
    } else {
        assert(s.subrange(0, k) =~= s);
    }
}

/// A digit string of at most two places stays below one hundred.
pub proof fn lemma_digits_val_two(s: Seq<char>)
    requires
        all_digits(s),
        s.len() <= 2,
    ensures
        0 <= digits_val(s) < 100,
{
    reveal_with_fuel(digits_val, 3);
    if s.len() == 1 {
        assert(s.drop_last().len() == 0);
        lemma_digit_val_bound(s.last());
    } else if s.len() == 2 {
        let p = s.drop_last();
        assert(all_digits(p)) by {
            assert(forall|i: int| 0 <= i < p.len() ==> p[i] == s[i]);
        }
        assert(p.drop_last().len() == 0);
        lemma_digit_val_bound(p.last());
        lemma_digit_val_bound(s.last());
    }
}

/// A digit character has a value from zero through nine.
pub proof fn lemma_digit_val_bound(c: char)
    requires
        is_digit(c),
    ensures
        0 <= digit_val(c) <= 9,
{
}

/// Value of the digit range `from..to` of `v`, when it is a non-empty digit
/// string whose value fits in a `u64`.
pub fn digits_range_val(v: &Vec<char>, from: usize, to: usize) -> (r: Option<u64>)
    requires
        from <= to <= v.len(),
    ensures
        ({
            let w = v@.subrange(from as int, to as int);
            match r {
                Some(x) => to > from && all_digits(w) && digits_val(w) <= u64::MAX && x
                    == digits_val(w),
                None => to == from || !all_digits(w) || digits_val(w) > u64::MAX,
            }
        }),
{
    let ghost w = v@.subrange(from as int, to as int);
    if from == to {
        return None;
    }
    let mut acc: u64 = 0;
    let mut i: usize = from;
    while i < to
        invariant
            from <= i <= to <= v.len(),
            w == v@.subrange(from as int, to as int),
            all_digits(w.subrange(0, i - from)),
            acc == digits_val(w.subrange(0, i - from)),
        decreases to - i,
    {
        let c = v[i];
        if !('0' <= c && c <= '9') {
            proof {
                assert(w[i - from] == v@[i as int]);
                assert(!is_digit(w[i - from]));
            }
            return None;
        }
        let d: u8 = (c as u8) - 48;
        proof {
            assert(d == digit_val(v@[i as int]));
        }
        if acc > (u64::MAX - (d as u64)) / 10 {
            proof {
                let p = w.subrange(0, i - from);
                let q = w.subrange(0, i - from + 1);
                assert(q.drop_last() =~= p);
                assert(q.last() == v@[i as int]);
                assert(digits_val(q) == acc * 10 + d);
                assert(acc * 10 + d > u64::MAX) by (nonlinear_arith)
                    requires
                        acc > (u64::MAX - (d as u64)) / 10,
                        d <= 9,
                ;
                if all_digits(w) {
                    lemma_digits_val_prefix(w, i - from + 1);
                }
            }
            return None;
        }
        acc = acc * 10 + (d as u64);
        i = i + 1;
        proof {
            let p = w.subrange(0, i - from - 1);
            let q = w.subrange(0, i - from);
            assert(q.drop_last() =~= p);
            assert(q.last() == v@[i - 1]);
        }
    }
    proof {
        assert(w.subrange(0, i - from) =~= w);
    }
    Some(acc)
}

/// `str::parse::<u64>` on the range `from..to` of `v`.
pub fn parse_u64_exec(v: &Vec<char>, from: usize, to: usize) -> (r: Option<u64>)
    requires
        from <= to <= v.len(),
    ensures
        ({
            let w = v@.subrange(from as int, to as int);
            match r {
                Some(x) => parse_u64_spec(w) == Some(x as int),
                None => parse_u64_spec(w) is None,
            }
        }),
{
    let ghost w = v@.subrange(from as int, to as int);
    if from < to && v[from] == '+' {
        proof {
            assert(w.drop_first() =~= v@.subrange(from + 1, to as int));
        }
        digits_range_val(v, from + 1, to)
    } else {
        digits_range_val(v, from, to)
    }
}

/// `str::parse::<i64>` on the range `from..to` of `v`.
pub fn parse_i64_exec(v: &Vec<char>, from: usize, to: usize) -> (r: Option<i64>)
    requires
        from <= to <= v.len(),
    ensures
        ({
            let w = v@.subrange(from as int, to as int);
            match r {
                Some(x) => parse_i64_spec(w) == Some(x as int),
                None => parse_i64_spec(w) is None,
            }
        }),
{
    let ghost w = v@.subrange(from as int, to as int);
    if from < to && v[from] == '-' {
        proof {
            assert(w.drop_first() =~= v@.subrange(from + 1, to as int));
        }
        match digits_range_val(v, from + 1, to) {
            Some(m) => {
                if m <= i64::MAX as u64 {
                    Some(-(m as i64))
                } else if m == (i64::MAX as u64) + 1 {
                    Some(i64::MIN)
                } else {
                    None
                }
            },
            None => None,
        }
    } else {
        if from < to && v[from] == '+' {
            proof {
                assert(w.drop_first() =~= v@.subrange(from + 1, to as int));
            }
        }
        let start: usize = if from < to && v[from] == '+' {
            from + 1
        } else {
            from
        };
        match digits_range_val(v, start, to) {
            Some(m) => {
                if m <= i64::MAX as u64 {
                    Some(m as i64)
                } else {
                    None
                }
            },
            None => None,
        }
    }
}

/// `str::parse::<i32>` on the range `from..to` of `v`.
pub fn parse_i32_exec(v: &Vec<char>, from: usize, to: usize) -> (r: Option<i32>)
    requires
        from <= to <= v.len(),
    ensures
        ({
            let w = v@.subrange(from as int, to as int);
            match r {
                Some(x) => parse_i32_spec(w) == Some(x as int),
                None => parse_i32_spec(w) is None,
            }
        }),
{
    let ghost w = v@.subrange(from as int, to as int);
    if from < to && v[from] == '-' {
        proof {
            assert(w.drop_first() =~= v@.subrange(from + 1, to as int));
        }
        match digits_range_val(v, from + 1, to) {
            Some(m) => {
                if m <= i32::MAX as u64 {
                    Some(-(m as i32))
                } else if m == (i32::MAX as u64) + 1 {
                    Some(i32::MIN)
                } else {
                    None
                }
            },
            None => None,
        }
    } else {
        if from < to && v[from] == '+' {
            proof {
                assert(w.drop_first() =~= v@.subrange(from + 1, to as int));
            }
        }
        let start: usize = if from < to && v[from] == '+' {
            from + 1
        } else {
            from
        };
        match digits_range_val(v, start, to) {
            Some(m) => {
                if m <= i32::MAX as u64 {
                    Some(m as i32)
                } else {
                    None
                }
            },
            None => None,
        }
    }
}

} // verus!
