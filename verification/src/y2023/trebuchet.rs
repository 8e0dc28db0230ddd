//! Trebuchet calibration: each line's value is its first and last digit,
//! where the second reading also counts digits spelled out as words.
use vstd::prelude::*;
use crate::text::{chars_of, is_digit, digit_value, nonblank, nonblank_lines, views_of};

verus! {

/// Why a line has no calibration value.
#[derive(Clone, Copy, Debug, PartialEq, Eq, Structural)]
pub enum CalibrationError {
    /// The line holds no digit.
    NoDigit,
}

/// The position of the first digit at or after `i`.
pub open spec fn first_digit_from(s: Seq<char>, i: int) -> Option<int>
    decreases s.len() - i,
{
    if i < 0 || i >= s.len() {
        None
    } else if is_digit(s[i]) {
        Some(i)
    } else {
        first_digit_from(s, i + 1)
    }
}

/// The position of the last digit before `i`.
pub open spec fn last_digit_before(s: Seq<char>, i: int) -> Option<int>
    decreases i,
{
    if i <= 0 || i > s.len() {
        None
    } else if is_digit(s[i - 1]) {
        Some(i - 1)
    } else {
        last_digit_before(s, i - 1)
    }
}

/// The first reading: ten times the first digit plus the last.
pub open spec fn value1(s: Seq<char>) -> Option<u32> {
    match (first_digit_from(s, 0), last_digit_before(s, s.len() as int)) {
        (Some(a), Some(b)) => Some((digit_value(s[a]) * 10 + digit_value(s[b])) as u32),
        _ => None,
    }
}

/// `w` is spelled in `s` at position `i`.
pub open spec fn spelled_at(s: Seq<char>, i: int, w: Seq<char>) -> bool {
    0 <= i && i + w.len() <= s.len() && s.subrange(i, i + w.len()) == w
}

/// The digit a position starts, as a digit or a word, if any.
pub open spec fn digit_at(s: Seq<char>, i: int) -> Option<u32> {
    if is_digit(s[i]) {
        Some(digit_value(s[i]) as u32)
    } else if spelled_at(s, i, seq!['o', 'n', 'e']) {
        Some(1)
    } else if spelled_at(s, i, seq!['t', 'w', 'o']) {
        Some(2)
    } else if spelled_at(s, i, seq!['t', 'h', 'r', 'e', 'e']) {
        Some(3)
    } else if spelled_at(s, i, seq!['f', 'o', 'u', 'r']) {
        Some(4)
    } else if spelled_at(s, i, seq!['f', 'i', 'v', 'e']) {
        Some(5)
    } else if spelled_at(s, i, seq!['s', 'i', 'x']) {
        Some(6)
    } else if spelled_at(s, i, seq!['s', 'e', 'v', 'e', 'n']) {
        Some(7)
    } else if spelled_at(s, i, seq!['e', 'i', 'g', 'h', 't']) {
        Some(8)
    } else if spelled_at(s, i, seq!['n', 'i', 'n', 'e']) {
        Some(9)
    } else {
        None
    }
}

/// The first digit, as a digit or a word, among the first `i` positions.
pub open spec fn first_word(s: Seq<char>, i: int) -> Option<u32>
    decreases i,
{
    if i <= 0 {
        None
    } else {
        match first_word(s, i - 1) {
            Some(v) => Some(v),
            None => digit_at(s, i - 1),
        }
    }
}

/// The last digit, as a digit or a word, among the first `i` positions.
pub open spec fn last_word(s: Seq<char>, i: int) -> Option<u32>
    decreases i,
{
    if i <= 0 {
        None
    } else {
        match digit_at(s, i - 1) {
            Some(v) => Some(v),
            None => last_word(s, i - 1),
        }
    }
}

/// The second reading: ten times the first digit or digit word plus the
/// last.
pub open spec fn value2(s: Seq<char>) -> Option<u32> {
    match (first_word(s, s.len() as int), last_word(s, s.len() as int)) {
        (Some(a), Some(b)) => Some((a * 10 + b) as u32),
        _ => None,
    }
}

/// Every character is ASCII.
pub open spec fn ascii(s: Seq<char>) -> bool {
    forall|i: int| 0 <= i < s.len() ==> (#[trigger] s[i] as u32) < 128
}

proof fn lemma_first_digit(s: Seq<char>, i: int)
    requires
        0 <= i <= s.len(),
    ensures
        first_digit_from(s, i) matches Some(k) ==> i <= k < s.len() && is_digit(s[k]) && forall|j: int| i <= j < k ==> !is_digit(#[trigger] s[j]),
        first_digit_from(s, i) is None ==> forall|j: int| i <= j < s.len() ==> !is_digit(#[trigger] s[j]),
    decreases s.len() - i,
{
    if i < s.len() && !is_digit(s[i]) {
        lemma_first_digit(s, i + 1);
    }
}

proof fn lemma_last_digit(s: Seq<char>, i: int)
    requires
        0 <= i <= s.len(),
    ensures
        last_digit_before(s, i) matches Some(k) ==> 0 <= k < i && is_digit(s[k]) && forall|j: int| k < j < i ==> !is_digit(#[trigger] s[j]),
        last_digit_before(s, i) is None ==> forall|j: int| 0 <= j < i ==> !is_digit(#[trigger] s[j]),
    decreases i,
{
    if i > 0 && !is_digit(s[i - 1]) {
        lemma_last_digit(s, i - 1);
    }
}

/// The first reading of a line: its first and last digit.
pub fn read_number_part1(line: &str) -> (r: Result<u32, CalibrationError>)
    ensures
        r matches Ok(v) ==> value1(line@) == Some(v),
        r is Err ==> value1(line@) is None,
{
    let cs = chars_of(line);
    let n = cs.len();
    let mut p1: usize = 0;
    while p1 < n && !(cs[p1] >= '0' && cs[p1] <= '9')
        invariant
            cs@ == line@,
            n == cs@.len(),
            p1 <= n,
            first_digit_from(cs@, 0) == first_digit_from(cs@, p1 as int),
        decreases n - p1,
    {
        p1 = p1 + 1;
    }
    if p1 == n {
        return Err(CalibrationError::NoDigit);
    }
    let mut p2: usize = n;
    while p2 > 0 && !(cs[p2 - 1] >= '0' && cs[p2 - 1] <= '9')
        invariant
            cs@ == line@,
            n == cs@.len(),
            p1 < p2 <= n,
            is_digit(cs@[p1 as int]),
            last_digit_before(cs@, n as int) == last_digit_before(cs@, p2 as int),
        decreases p2,
    {
        p2 = p2 - 1;
    }
    let c1 = cs[p1];
    let c2 = cs[p2 - 1];
    let n1 = (c1 as u32) - ('0' as u32);
    let n2 = (c2 as u32) - ('0' as u32);
    Ok(n1 * 10 + n2)
}

/// Whether `w` is spelled in `cs` at position `i`.
fn spelled(cs: &Vec<char>, i: usize, w: &str) -> (r: bool)
    requires
        i <= cs@.len(),
    ensures
        r == spelled_at(cs@, i as int, w@),
{
    let wc = chars_of(w);
    let m = wc.len();
    if m > cs.len() - i {
        return false;
    }
    let mut k: usize = 0;
    while k < m
        invariant
            wc@ == w@,
            m == wc@.len(),
            i + m <= cs.len(),
            k <= m,
            forall|j: int| 0 <= j < k ==> cs@[i + j] == wc@[j],
        decreases m - k,
    {
        if cs[i + k] != wc[k] {
            assert(cs@.subrange(i as int, i + m)[k as int] != w@[k as int]);
            return false;
        }
        k = k + 1;
    }
    assert(cs@.subrange(i as int, i + m) =~= w@);
    true
}

/// The digit a position starts, as a digit or a word, if any.
fn digit_or_word(cs: &Vec<char>, i: usize) -> (r: Option<u32>)
    requires
        i < cs@.len(),
    ensures
        r == digit_at(cs@, i as int),
{
    proof {
        reveal_strlit("one");
        reveal_strlit("two");
        reveal_strlit("three");
        reveal_strlit("four");
        reveal_strlit("five");
        reveal_strlit("six");
        reveal_strlit("seven");
        reveal_strlit("eight");
        reveal_strlit("nine");
        assert("one"@ =~= seq!['o', 'n', 'e']);
        assert("two"@ =~= seq!['t', 'w', 'o']);
        assert("three"@ =~= seq!['t', 'h', 'r', 'e', 'e']);
        assert("four"@ =~= seq!['f', 'o', 'u', 'r']);
        assert("five"@ =~= seq!['f', 'i', 'v', 'e']);
        assert("six"@ =~= seq!['s', 'i', 'x']);
        assert("seven"@ =~= seq!['s', 'e', 'v', 'e', 'n']);
        assert("eight"@ =~= seq!['e', 'i', 'g', 'h', 't']);
        assert("nine"@ =~= seq!['n', 'i', 'n', 'e']);
    }
    let c = cs[i];
    if c >= '0' && c <= '9' {
        Some((c as u32) - ('0' as u32))
    } else if spelled(cs, i, "one") {
        Some(1)
    } else if spelled(cs, i, "two") {
        Some(2)
    } else if spelled(cs, i, "three") {
        Some(3)
    } else if spelled(cs, i, "four") {
        Some(4)
    } else if spelled(cs, i, "five") {
        Some(5)
    } else if spelled(cs, i, "six") {
        Some(6)
    } else if spelled(cs, i, "seven") {
        Some(7)
    } else if spelled(cs, i, "eight") {
        Some(8)
    } else if spelled(cs, i, "nine") {
        Some(9)
    } else {
        None
    }
}

proof fn lemma_digit_at_small(s: Seq<char>, i: int)
    ensures
        digit_at(s, i) matches Some(v) ==> v <= 9,
{
}

proof fn lemma_words_small(s: Seq<char>, i: int)
    ensures
        first_word(s, i) matches Some(v) ==> v <= 9,
        last_word(s, i) matches Some(v) ==> v <= 9,
    decreases i,
{
    if i > 0 {
        lemma_words_small(s, i - 1);
        lemma_digit_at_small(s, i - 1);
    }
}

/// The second reading of a line: its first and last digit, spelled out or
/// not. The line is ASCII: the scan steps one byte at a time.
pub fn read_number_part2(line: &str) -> (r: Result<u32, CalibrationError>)
    requires
        ascii(line@),
    ensures
        r matches Ok(v) ==> value2(line@) == Some(v),
        r is Err ==> value2(line@) is None,
{
    let cs = chars_of(line);
    let n = cs.len();
    let mut n1: Option<u32> = None;
    let mut n2: Option<u32> = None;
    let mut i: usize = 0;
    while i < n
        invariant
            cs@ == line@,
            n == cs@.len(),
            i <= n,
            n1 == first_word(cs@, i as int),
            n2 == last_word(cs@, i as int),
        decreases n - i,
    {
        let d = digit_or_word(&cs, i);
        if let Some(v) = d {
            if n1.is_none() {
                n1 = Some(v);
            }
            n2 = Some(v);
        }
        i = i + 1;
    }
    proof {
        lemma_words_small(cs@, n as int);
    }
    match (n1, n2) {
        (Some(a), Some(b)) => Ok(a * 10 + b),
        _ => Err(CalibrationError::NoDigit),
    }
}

/// The reading of each line (`value2` when `part2`, else `value1`).
pub open spec fn reading(s: Seq<char>, part2: bool) -> Option<u32> {
    if part2 {
        value2(s)
    } else {
        value1(s)
    }
}

/// The sum of the readings.
pub open spec fn sum_readings(v: Seq<u32>) -> int
    decreases v.len(),
{
    if v.len() == 0 {
        0
    } else {
        sum_readings(v.drop_last()) + v.last()
    }
}

/// Reads each line's value (blank lines skipped, each trimmed) and their
/// sum; `NoDigit` when some line has none.
pub fn process(lines: &Vec<String>, part2: bool) -> (r: Result<(Vec<u32>, u32), CalibrationError>)
    requires
        lines@.len() <= 40_000_000,
        part2 ==> forall|k: int| 0 <= k < nonblank(views_of(lines@)).len() ==> ascii(#[trigger] nonblank(views_of(lines@))[k]),
    ensures
        r matches Ok((vals, total)) ==> {
            &&& vals@.len() == nonblank(views_of(lines@)).len()
            &&& forall|k: int| 0 <= k < vals@.len() ==> reading(#[trigger] nonblank(views_of(lines@))[k], part2) == Some(vals@[k])
            &&& total == sum_readings(vals@)
        },
        r is Err <==> exists|k: int| 0 <= k < nonblank(views_of(lines@)).len() && reading(#[trigger] nonblank(views_of(lines@))[k], part2) is None,
{
    let nb = nonblank_lines(lines);
    let ghost rows = views_of(nb@);
    proof {
        lemma_nonblank_len(views_of(lines@));
    }
    let mut vals: Vec<u32> = Vec::new();
    let mut total: u32 = 0;
    let mut i: usize = 0;
    while i < nb.len()
        invariant
            rows == views_of(nb@),
            rows == nonblank(views_of(lines@)),
            rows.len() <= 40_000_000,
            part2 ==> forall|k: int| 0 <= k < rows.len() ==> ascii(#[trigger] rows[k]),
            i <= rows.len(),
            vals@.len() == i,
            forall|k: int| 0 <= k < i ==> reading(#[trigger] rows[k], part2) == Some(vals@[k]),
            total == sum_readings(vals@),
            total <= 99 * i,
        decreases rows.len() - i,
    {
        let line = nb[i].as_str();
        assert(line@ == rows[i as int]);
        let r = if part2 { read_number_part2(line) } else { read_number_part1(line) };
        match r {
            Err(e) => {
                return Err(e);
            },
            Ok(v) => {
                proof {
                    if part2 {
                        lemma_words_small(line@, line@.len() as int);
                    } else {
                        lemma_first_digit(line@, 0);
                        lemma_last_digit(line@, line@.len() as int);
                    }
                }
                assert(v <= 99);
                let ghost before = vals@;
                vals.push(v);
                assert(vals@.drop_last() =~= before);
                total = total + v;
            },
        }
        i = i + 1;
    }
    Ok((vals, total))
}

proof fn lemma_nonblank_len(lines: Seq<Seq<char>>)
    ensures
        nonblank(lines).len() <= lines.len(),
    decreases lines.len(),
{
    if lines.len() > 0 {
        lemma_nonblank_len(lines.drop_last());
    }
}

} // verus!
