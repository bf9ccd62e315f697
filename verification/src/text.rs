use vstd::prelude::*;
use vstd::string::StrSliceExecFns;

verus! {

// Character-level text utilities shared by the appointment parser.
//
// The notation is line oriented and ASCII driven: markers, month and weekday
// abbreviations, digits and separators are all ASCII, while descriptions may
// hold arbitrary characters.  Everything here therefore works on sequences of
// `char`, with ASCII case folding.

/// ASCII whitespace: the separator class between tokens of a line.
pub open spec fn is_ws(c: char) -> bool {
    c == ' ' || c == '\t' || c == '\n' || c == '\r' || c == '\u{c}'
}

/// Executable test for [`is_ws`].
pub fn ws_char(c: char) -> (r: bool)
    ensures
        r == is_ws(c),
{
    c == ' ' || c == '\t' || c == '\n' || c == '\r' || c == '\u{c}'
}

/// ASCII lower casing of one character; everything outside `A..=Z` is kept.
pub open spec fn lower_char(c: char) -> char {
    if 'A' <= c && c <= 'Z' {
        (((c as u8) + 32) as char)
    } else {
        c
    }
}

/// Executable ASCII lower casing.
pub fn lower_char_exec(c: char) -> (r: char)
    ensures
        r == lower_char(c),
{
    if 'A' <= c && c <= 'Z' {
        ((c as u8) + 32) as char
    } else {
        c
    }
}

/// ASCII lower casing of a whole sequence.
pub open spec fn lower(s: Seq<char>) -> Seq<char> {
    s.map_values(|c: char| lower_char(c))
}

/// Copies the characters of `s` into a vector.
pub fn chars_of(s: &str) -> (v: Vec<char>)
    ensures
        v@ == s@,
{
    let n = s.unicode_len();
    let mut v: Vec<char> = Vec::new();
    let mut i: usize = 0;
    while i < n
        invariant
            i <= n,
            n == s@.len(),
            v@ == s@.subrange(0, i as int),
        decreases n - i,
    {
        let c = s.get_char(i);
        v.push(c);
        i = i + 1;
        proof {
            assert(s@.subrange(0, i as int) =~= s@.subrange(0, i - 1).push(s@[i - 1]));
        }
    }
    proof {
        assert(s@.subrange(0, n as int) =~= s@);
    }
    v
}

/// ASCII lower casing of a whole vector.
pub fn to_lower_vec(v: &Vec<char>) -> (r: Vec<char>)
    ensures
        r@ == lower(v@),
{
    let mut r: Vec<char> = Vec::new();
    let mut i: usize = 0;
    while i < v.len()
        invariant
            i <= v.len(),
            r@.len() == i,
            forall|j: int| 0 <= j < i ==> r@[j] == lower_char(v@[j]),
        decreases v.len() - i,
    {
        r.push(lower_char_exec(v[i]));
        i = i + 1;
    }
    proof {
        assert(r@ =~= lower(v@));
    }
    r
}

/// The pattern `p` occurs in `s` at position `i`.
pub open spec fn match_at(s: Seq<char>, p: Seq<char>, i: int) -> bool {
    &&& 0 <= i
    &&& i + p.len() <= s.len()
    &&& forall|j: int| 0 <= j < p.len() ==> s[i + j] == p[j]
}

/// Position of the first occurrence of `p` in `s` at or after `i`.
pub open spec fn find_from(s: Seq<char>, p: Seq<char>, i: int) -> Option<int>
    decreases s.len() - i,
{
    if i < 0 || i + p.len() > s.len() {
        None
    } else if match_at(s, p, i) {
        Some(i)
    } else {
        find_from(s, p, i + 1)
    }
}

/// Position of the first occurrence of `p` in `s`, if any.
pub open spec fn find(s: Seq<char>, p: Seq<char>) -> Option<int> {
    find_from(s, p, 0)
}

proof fn lemma_find_from_at(s: Seq<char>, p: Seq<char>, k: int, i: int)
    requires
        0 <= k <= i,
        match_at(s, p, i),
        forall|j: int| k <= j < i ==> !match_at(s, p, j),
    ensures
        find_from(s, p, k) == Some(i),
    decreases i - k,
{
    if k < i {
        lemma_find_from_at(s, p, k + 1, i);
    }
}

proof fn lemma_find_from_none(s: Seq<char>, p: Seq<char>, k: int)
    requires
        0 <= k,
        forall|j: int| k <= j ==> !match_at(s, p, j),
    ensures
        find_from(s, p, k) is None,
    decreases s.len() - k,
{
    if k + p.len() <= s.len() {
        assert(!match_at(s, p, k));
        lemma_find_from_none(s, p, k + 1);
    }
}

/// What a `find` result means: a hit is the first match, a miss means no
/// match anywhere.
pub proof fn lemma_find_props(s: Seq<char>, p: Seq<char>)
    ensures
        match find(s, p) {
            Some(i) => match_at(s, p, i) && forall|j: int| 0 <= j < i ==> !match_at(s, p, j),
            None => forall|j: int| !match_at(s, p, j),
        },
{
    lemma_find_from_props(s, p, 0);
}

proof fn lemma_find_from_props(s: Seq<char>, p: Seq<char>, k: int)
    requires
        0 <= k,
    ensures
        match find_from(s, p, k) {
            Some(i) => k <= i && match_at(s, p, i) && forall|j: int| k <= j < i ==> !match_at(
                s,
                p,
                j,
            ),
            None => forall|j: int| k <= j ==> !match_at(s, p, j),
        },
    decreases s.len() - k,
{
    if k + p.len() > s.len() {
    } else if match_at(s, p, k) {
    } else {
        lemma_find_from_props(s, p, k + 1);
    }
}

/// Does `p` occur in `s` starting exactly at `i`?
fn range_eq(hay: &Vec<char>, i: usize, pat: &Vec<char>) -> (r: bool)
    requires
        i + pat.len() <= hay.len(),
    ensures
        r == match_at(hay@, pat@, i as int),
{
    let mut j: usize = 0;
    while j < pat.len()
        invariant
            j <= pat.len(),
            i + pat.len() <= hay.len(),
            forall|jj: int| 0 <= jj < j ==> hay@[i + jj] == pat@[jj],
        decreases pat.len() - j,
    {
        if hay[i + j] != pat[j] {
            return false;
        }
        j = j + 1;
    }
    true
}

/// First occurrence of `pat` in `hay`.
pub fn find_sub(hay: &Vec<char>, pat: &Vec<char>) -> (r: Option<usize>)
    ensures
        match r {
            Some(i) => find(hay@, pat@) == Some(i as int),
            None => find(hay@, pat@) is None,
        },
{
    if pat.len() > hay.len() {
        proof {
            lemma_find_from_none(hay@, pat@, 0);
        }
        return None;
    }
    let last: usize = hay.len() - pat.len();
    let mut i: usize = 0;
    while i <= last
        invariant
            i <= last + 1,
            last == hay.len() - pat.len(),
            pat.len() <= hay.len(),
            forall|j: int| 0 <= j < i ==> !match_at(hay@, pat@, j),
        decreases last + 1 - i,
    {
        if range_eq(hay, i, pat) {
            proof {
                lemma_find_from_at(hay@, pat@, 0, i as int);
            }
            return Some(i);
        }
        i = i + 1;
    }
    proof {
        lemma_find_from_none(hay@, pat@, 0);
    }
    None
}

/// `s` begins with `p`.
pub open spec fn starts_with(s: Seq<char>, p: Seq<char>) -> bool {
    p.len() <= s.len() && forall|i: int| 0 <= i < p.len() ==> s[i] == p[i]
}

/// Executable test for [`starts_with`].
pub fn starts_with_exec(v: &Vec<char>, p: &Vec<char>) -> (r: bool)
    ensures
        r == starts_with(v@, p@),
{
    if p.len() > v.len() {
        return false;
    }
    let mut i: usize = 0;
    while i < p.len()
        invariant
            i <= p.len() <= v.len(),
            forall|j: int| 0 <= j < i ==> v@[j] == p@[j],
        decreases p.len() - i,
    {
        if v[i] != p[i] {
            return false;
        }
        i = i + 1;
    }
    true
}

/// The text between the first occurrence of `a` and the next occurrence of
/// `b` after it.  A missing `a` yields the empty sequence, and so does a
/// missing `b`, because the end position then defaults to zero.
pub open spec fn between_val(src: Seq<char>, a: Seq<char>, b: Seq<char>) -> Seq<char> {
    match find(src, a) {
        Some(i) => {
            let rest = src.subrange(i + a.len(), src.len() as int);
            let e: int = match find(rest, b) {
                Some(j) => j,
                None => 0,
            };
            rest.subrange(0, e)
        },
        None => Seq::empty(),
    }
}

/// Is the character `c` somewhere in `s`?
pub open spec fn contains_char(s: Seq<char>, c: char) -> bool {
    exists|i: int| 0 <= i < s.len() && s[i] == c
}

/// Executable test for [`contains_char`].
pub fn contains_char_exec(v: &Vec<char>, c: char) -> (r: bool)
    ensures
        r == contains_char(v@, c),
{
    let mut i: usize = 0;
    while i < v.len()
        invariant
            i <= v.len(),
            forall|j: int| 0 <= j < i ==> v@[j] != c,
        decreases v.len() - i,
    {
        if v[i] == c {
            return true;
        }
        i = i + 1;
    }
    false
}

/// Copies the range `from..to` of `v` into a fresh vector.
pub fn sub_vec(v: &Vec<char>, from: usize, to: usize) -> (r: Vec<char>)
    requires
        from <= to <= v.len(),
    ensures
        r@ == v@.subrange(from as int, to as int),
{
    let mut r: Vec<char> = Vec::new();
    let mut i: usize = from;
    while i < to
        invariant
            from <= i <= to <= v.len(),
            r@ == v@.subrange(from as int, i as int),
        decreases to - i,
    {
        r.push(v[i]);
        i = i + 1;
        proof {
            assert(v@.subrange(from as int, i as int) =~= v@.subrange(from as int, i - 1).push(
                v@[i - 1],
            ));
        }
    }
    r
}

/// Index of the first non-whitespace character at or after `i` (or the length).
pub open spec fn next_non_ws(s: Seq<char>, i: int) -> int
    decreases s.len() - i,
{
    if i < 0 || i >= s.len() {
        s.len() as int
    } else if is_ws(s[i]) {
        next_non_ws(s, i + 1)
    } else {
        i
    }
}

/// Index of the first whitespace character at or after `i` (or the length).
pub open spec fn next_ws(s: Seq<char>, i: int) -> int
    decreases s.len() - i,
{
    if i < 0 || i >= s.len() {
        s.len() as int
    } else if !is_ws(s[i]) {
        next_ws(s, i + 1)
    } else {
        i
    }
}

pub broadcast proof fn lemma_next_non_ws_bounds(s: Seq<char>, i: int)
    requires
        0 <= i <= s.len(),
    ensures
        i <= #[trigger] next_non_ws(s, i) <= s.len(),
        forall|j: int| i <= j < next_non_ws(s, i) ==> is_ws(s[j]),
        next_non_ws(s, i) < s.len() ==> !is_ws(s[next_non_ws(s, i)]),
    decreases s.len() - i,
{
    if i < s.len() && is_ws(s[i]) {
        lemma_next_non_ws_bounds(s, i + 1);
    }
}

pub broadcast proof fn lemma_next_ws_bounds(s: Seq<char>, i: int)
    requires
        0 <= i <= s.len(),
    ensures
        i <= #[trigger] next_ws(s, i) <= s.len(),
        forall|j: int| i <= j < next_ws(s, i) ==> !is_ws(s[j]),
        next_ws(s, i) < s.len() ==> is_ws(s[next_ws(s, i)]),
    decreases s.len() - i,
{
    if i < s.len() && !is_ws(s[i]) {
        lemma_next_ws_bounds(s, i + 1);
    }
}

/// Executable scan to the first non-whitespace character at or after `i`.
pub fn scan_non_ws(v: &Vec<char>, i: usize) -> (r: usize)
    requires
        i <= v.len(),
    ensures
        r == next_non_ws(v@, i as int),
{
    let mut j: usize = i;
    while j < v.len() && ws_char(v[j])
        invariant
            i <= j <= v.len(),
            next_non_ws(v@, i as int) == next_non_ws(v@, j as int),
        decreases v.len() - j,
    {
        j = j + 1;
    }
    j
}

/// Executable scan to the first whitespace character at or after `i`.
pub fn scan_ws(v: &Vec<char>, i: usize) -> (r: usize)
    requires
        i <= v.len(),
    ensures
        r == next_ws(v@, i as int),
{
    let mut j: usize = i;
    while j < v.len() && !ws_char(v[j])
        invariant
            i <= j <= v.len(),
            next_ws(v@, i as int) == next_ws(v@, j as int),
        decreases v.len() - j,
    {
        j = j + 1;
    }
    j
}

/// The span (start, end) of the `n`-th whitespace-separated word of `s`.
/// The word exists when its start lies before the end of `s`.
pub open spec fn word_span(s: Seq<char>, n: nat) -> (int, int)
    decreases n,
{
    if n == 0 {
        let a = next_non_ws(s, 0);
        (a, next_ws(s, a))
    } else {
        let prev = word_span(s, (n - 1) as nat);
        let a = next_non_ws(s, prev.1);
        (a, next_ws(s, a))
    }
}

/// The `n`-th whitespace-separated word of `s`, if it exists.
pub open spec fn word(s: Seq<char>, n: nat) -> Option<Seq<char>> {
    let (a, b) = word_span(s, n);
    if a < s.len() {
        Some(s.subrange(a, b))
    } else {
        None
    }
}

/// Executable span of the `n`-th word.
pub fn word_span_exec(v: &Vec<char>, n: usize) -> (r: (usize, usize))
    ensures
        r.0 == word_span(v@, n as nat).0,
        r.1 == word_span(v@, n as nat).1,
        r.0 <= r.1 <= v.len(),
{
    let mut k: usize = 0;
    let mut a: usize = scan_non_ws(v, 0);
    proof {
        lemma_next_non_ws_bounds(v@, 0);
    }
    let mut b: usize = scan_ws(v, a);
    proof {
        lemma_next_ws_bounds(v@, a as int);
    }
    while k < n
        invariant
            k <= n,
            a == word_span(v@, k as nat).0,
            b == word_span(v@, k as nat).1,
            a <= b <= v.len(),
        decreases n - k,
    {
        let a2 = scan_non_ws(v, b);
        proof {
            lemma_next_non_ws_bounds(v@, b as int);
        }
        let b2 = scan_ws(v, a2);
        proof {
            lemma_next_ws_bounds(v@, a2 as int);
        }
        a = a2;
        b = b2;
        k = k + 1;
    }
    (a, b)
}

/// Index of the first newline at or after `i` (or the length).
pub open spec fn next_nl(s: Seq<char>, i: int) -> int
    decreases s.len() - i,
{
    if i < 0 || i >= s.len() {
        s.len() as int
    } else if s[i] == '\n' {
        i
    } else {
        next_nl(s, i + 1)
    }
}

pub proof fn lemma_next_nl_bounds(s: Seq<char>, i: int)
    requires
        0 <= i <= s.len(),
    ensures
        i <= next_nl(s, i) <= s.len(),
        forall|j: int| i <= j < next_nl(s, i) ==> s[j] != '\n',
        next_nl(s, i) < s.len() ==> s[next_nl(s, i)] == '\n',
    decreases s.len() - i,
{
    if i < s.len() && s[i] != '\n' {
        lemma_next_nl_bounds(s, i + 1);
    }
}

/// Executable scan to the first newline at or after `i`.
pub fn scan_nl(v: &Vec<char>, i: usize) -> (r: usize)
    requires
        i <= v.len(),
    ensures
        r == next_nl(v@, i as int),
{
    let mut j: usize = i;
    while j < v.len() && v[j] != '\n'
        invariant
            i <= j <= v.len(),
            next_nl(v@, i as int) == next_nl(v@, j as int),
        decreases v.len() - j,
    {
        j = j + 1;
    }
    j
}

/// A final carriage return dropped, as the standard line iterator does for
/// lines a newline ended.
pub open spec fn strip_cr(l: Seq<char>) -> Seq<char> {
    if l.len() > 0 && l.last() == '\r' {
        l.drop_last()
    } else {
        l
    }
}

/// The lines of the text from position `i` on: split at newlines, each line
/// that a newline ended less a final carriage return, and no empty line
/// after a final newline.
pub open spec fn lines_from(s: Seq<char>, i: int) -> Seq<Seq<char>>
    decreases s.len() - i,
{
    if i < 0 || i >= s.len() {
        Seq::empty()
    } else {
        let j0 = next_nl(s, i);
        let j: int = if j0 < i {
            i
        } else if j0 > s.len() {
            s.len() as int
        } else {
            j0
        };
        if j >= s.len() {
            seq![s.subrange(i, s.len() as int)]
        } else {
            seq![strip_cr(s.subrange(i, j))] + lines_from(s, j + 1)
        }
    }
}

/// The lines of a text.
pub open spec fn lines_of(s: Seq<char>) -> Seq<Seq<char>> {
    lines_from(s, 0)
}

/// Index after dropping leading whitespace.
pub open spec fn trim_start_idx(s: Seq<char>) -> int {
    next_non_ws(s, 0)
}

/// Index before trailing whitespace, scanning down from `i`.
pub open spec fn trim_end_from(s: Seq<char>, i: int) -> int
    decreases i,
{
    if i <= 0 || i > s.len() {
        0
    } else if is_ws(s[i - 1]) {
        trim_end_from(s, i - 1)
    } else {
        i
    }
}

/// `s` with leading and trailing whitespace removed.
pub open spec fn trim(s: Seq<char>) -> Seq<char> {
    if trim_start_idx(s) == s.len() {
        Seq::empty()
    } else {
        s.subrange(trim_start_idx(s), trim_end_from(s, s.len() as int))
    }
}

pub proof fn lemma_trim_end_bounds(s: Seq<char>, i: int)
    requires
        0 <= i <= s.len(),
    ensures
        0 <= trim_end_from(s, i) <= i,
        forall|j: int| trim_end_from(s, i) <= j < i ==> is_ws(s[j]),
        trim_end_from(s, i) > 0 ==> !is_ws(s[trim_end_from(s, i) - 1]),
    decreases i,
{
    if i > 0 && is_ws(s[i - 1]) {
        lemma_trim_end_bounds(s, i - 1);
    }
}

/// When some character is not whitespace, trimming keeps a non-empty core.
pub proof fn lemma_trim_nonempty(s: Seq<char>)
    requires
        trim_start_idx(s) < s.len(),
    ensures
        trim_start_idx(s) < trim_end_from(s, s.len() as int),
    decreases s.len(),
{
    lemma_next_non_ws_bounds(s, 0);
    lemma_trim_end_bounds(s, s.len() as int);
    let a = trim_start_idx(s);
    let b = trim_end_from(s, s.len() as int);
    if b <= a {
        assert(is_ws(s[a]));
    }
}

/// Executable trim, returning the trimmed span of `v`.
pub fn trim_exec(v: &Vec<char>) -> (r: (usize, usize))
    ensures
        r.0 <= r.1 <= v.len(),
        v@.subrange(r.0 as int, r.1 as int) == trim(v@),
{
    let a = scan_non_ws(v, 0);
    proof {
        lemma_next_non_ws_bounds(v@, 0);
    }
    if a == v.len() {
        proof {
            assert(v@.subrange(a as int, a as int) =~= trim(v@));
        }
        return (a, a);
    }
    let mut b: usize = v.len();
    while b > 0 && ws_char(v[b - 1])
        invariant
            0 <= b <= v.len(),
            trim_end_from(v@, v.len() as int) == trim_end_from(v@, b as int),
        decreases b,
    {
        b = b - 1;
    }
    proof {
        lemma_trim_nonempty(v@);
        lemma_trim_end_bounds(v@, v.len() as int);
    }
    (a, b)
}

} // verus!
