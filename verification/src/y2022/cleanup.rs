//! Camp cleanup: pairs of section ranges, and which pairs are redundant.
use vstd::prelude::*;
use core::ops::RangeInclusive;
use crate::common::string_views;
use crate::text::{find_char, find_spec, is_digit, is_first, lemma_first_unique, lemma_nat_digits, nat_digits, parse_int, parse_u32, range_end, range_start};

verus! {

/// Errors of this puzzle.
pub enum Error {
    /// The input was malformed; the text names the offending part.
    InvalidArgument(String),
}

/// The value of a decimal `u32`.
pub open spec fn number_spec(s: Seq<char>) -> Option<int> {
    parse_int(s, false, 0, u32::MAX as int)
}

/// Parses a decimal `u32`; fails with the text itself.
pub fn parse_number(s: &str) -> (r: Result<u32, Error>)
    ensures
        number_spec(s@) matches Some(n) ==> r matches Ok(m) && m == n,
        number_spec(s@) is None ==> (r matches Err(Error::InvalidArgument(t)) && t@ == s@),
{
    match parse_u32(s) {
        Some(n) => Ok(n),
        None => Err(Error::InvalidArgument(s.to_owned())),
    }
}

/// What `parse_range` makes of `s`: the numbers before and after the first
/// dash, or the text that fails.
pub open spec fn range_spec(s: Seq<char>) -> Result<(int, int), Seq<char>> {
    match find_spec(s, '-') {
        None => Err(s),
        Some(i) => match number_spec(s.take(i)) {
            None => Err(s.take(i)),
            Some(a) => match number_spec(s.skip(i + 1)) {
                None => Err(s.skip(i + 1)),
                Some(b) => Ok((a, b)),
            },
        },
    }
}

/// Writing two numbers in decimal with a dash between them and parsing the
/// text gives the two numbers back.
pub proof fn lemma_parse_range_reads_back(a: u32, b: u32)
    ensures
        range_spec(nat_digits(a as nat) + seq!['-'] + nat_digits(b as nat)) == Ok::<(int, int), Seq<char>>(
            (a as int, b as int),
        ),
{
    let da = nat_digits(a as nat);
    let db = nat_digits(b as nat);
    let s = da + seq!['-'] + db;
    lemma_nat_digits(a as nat);
    lemma_nat_digits(b as nat);
    assert forall|j: int| 0 <= j < da.len() implies #[trigger] s[j] != '-' by {
        assert(s[j] == da[j]);
        assert(is_digit(da[j]));
    }
    assert(s[da.len() as int] == '-');
    assert(is_first(s, '-', da.len() as int));
    lemma_first_unique(s, '-', da.len() as int);
    assert(s.take(da.len() as int) =~= da);
    assert(s.skip(da.len() as int + 1) =~= db);
    assert(is_digit(da[0]));
    assert(is_digit(db[0]));
}

/// Parses `a-b` into the range `a..=b`.
pub fn parse_range(s: &str) -> (r: Result<RangeInclusive<u32>, Error>)
    ensures
        range_spec(s@) matches Ok((a, b)) ==> (r matches Ok(x) && x@.start == a && x@.end == b
            && !x@.exhausted),
        range_spec(s@) matches Err(t) ==> (r matches Err(Error::InvalidArgument(u)) && u@ == t),
{
    let dash = match find_char(s, '-') {
        Some(i) => i,
        None => return Err(Error::InvalidArgument(s.to_owned())),
    };
    let n = s.unicode_len();
    let ns1 = s.substring_char(0, dash);
    let ns2 = s.substring_char(dash + 1, n);
    let n1 = parse_number(ns1)?;
    let n2 = parse_number(ns2)?;
    Ok(n1..=n2)
}

/// The second range of the pair ends within the first one and does not
/// start after its end.
pub open spec fn redundant_spec(a: (u32, u32), b: (u32, u32)) -> bool {
    b.0 <= a.1 && b.1 <= a.1
}

/// Whether the second range of an ordered pair lies within the first: its
/// start and end are both at most the first range's end.
pub fn is_redundant_pair(pair: &(RangeInclusive<u32>, RangeInclusive<u32>)) -> (r: bool)
    ensures
        r == redundant_spec((pair.0@.start, pair.0@.end), (pair.1@.start, pair.1@.end)),
{
    range_start(&pair.1) <= range_end(&pair.0) && range_end(&pair.1) <= range_end(&pair.0)
}

/// The pair in the order the puzzle compares it in: the range that starts
/// first comes first, and of two with one start the longer comes first.
pub open spec fn ordered(a: (int, int), b: (int, int)) -> ((int, int), (int, int)) {
    if a.0 < b.0 || (a.0 == b.0 && a.1 >= b.1) { (a, b) } else { (b, a) }
}

/// A pair is redundant exactly when one of its two ranges contains the
/// other, whichever of them is written first, for ranges that are not
/// empty.
pub proof fn lemma_redundant_is_containment(a: (u32, u32), b: (u32, u32))
    requires
        a.0 <= a.1,
        b.0 <= b.1,
    ensures
        ({
            let (x, y) = ordered((a.0 as int, a.1 as int), (b.0 as int, b.1 as int));
            redundant_spec((x.0 as u32, x.1 as u32), (y.0 as u32, y.1 as u32)) <==> ((a.0 <= b.0 && b.1 <= a.1) || (b.0
                <= a.0 && a.1 <= b.1))
        }),
        ordered((a.0 as int, a.1 as int), (b.0 as int, b.1 as int)) == ordered(
            (b.0 as int, b.1 as int),
            (a.0 as int, a.1 as int),
        ) || a == b,
{
}

/// What one line holds: two ranges separated by the first comma, ordered;
/// or the text that fails.
pub open spec fn pair_spec(l: Seq<char>) -> Result<((int, int), (int, int)), Seq<char>> {
    match find_spec(l, ',') {
        None => Err(l),
        Some(i) => match range_spec(l.take(i)) {
            Err(t) => Err(t),
            Ok(a) => match range_spec(l.skip(i + 1)) {
                Err(t) => Err(t),
                Ok(b) => Ok(ordered(a, b)),
            },
        },
    }
}

/// The bounds of a range.
pub open spec fn bounds(r: RangeInclusive<u32>) -> (int, int) {
    (r@.start as int, r@.end as int)
}

/// The pairs that the non-blank lines among the first `n` hold, or the
/// first failing text.
pub open spec fn pairs_spec(lines: Seq<Seq<char>>, n: nat) -> Result<Seq<((int, int), (int, int))>, Seq<char>>
    decreases n,
{
    if n == 0 {
        Ok(Seq::empty())
    } else {
        match pairs_spec(lines, (n - 1) as nat) {
            Err(e) => Err(e),
            Ok(v) => if lines[n - 1].len() == 0 {
                Ok(v)
            } else {
                match pair_spec(lines[n - 1]) {
                    Err(e) => Err(e),
                    Ok(p) => Ok(v.push(p)),
                }
            },
        }
    }
}

proof fn lemma_pairs_error_stays(lines: Seq<Seq<char>>, m: nat, n: nat, e: Seq<char>)
    requires
        m <= n,
        pairs_spec(lines, m) == Err::<Seq<((int, int), (int, int))>, Seq<char>>(e),
    ensures
        pairs_spec(lines, n) == Err::<Seq<((int, int), (int, int))>, Seq<char>>(e),
    decreases n - m,
{
    if m < n {
        lemma_pairs_error_stays(lines, m, (n - 1) as nat, e);
    }
}

/// Reads the ordered pairs of ranges from the trimmed input lines, skipping
/// blank ones.
pub fn parse_pairs(lines: &Vec<String>) -> (r: Result<Vec<(RangeInclusive<u32>, RangeInclusive<u32>)>, Error>)
    ensures
        pairs_spec(string_views(lines@), lines@.len()) matches Ok(v) ==> (r matches Ok(w) && w@.len() == v.len()
            && forall|k: int| 0 <= k < v.len() ==> (bounds(#[trigger] w@[k].0), bounds(w@[k].1)) == v[k]),
        pairs_spec(string_views(lines@), lines@.len()) matches Err(t) ==> (r matches Err(Error::InvalidArgument(u))
            && u@ == t),
{
    let ghost views = string_views(lines@);
    let mut result: Vec<(RangeInclusive<u32>, RangeInclusive<u32>)> = Vec::new();
    let n = lines.len();
    for i in 0..n
        invariant
            n == lines@.len(),
            views == string_views(lines@),
            pairs_spec(views, i as nat) matches Ok(v) && result@.len() == v.len()
                && forall|k: int| 0 <= k < v.len() ==> (bounds(#[trigger] result@[k].0), bounds(result@[k].1)) == v[k],
    {
        let line = lines[i].as_str();
        proof {
            assert(views[i as int] == line@);
        }
        let len = line.unicode_len();
        if len != 0 {
            let comma = match find_char(line, ',') {
                Some(c) => c,
                None => {
                    proof {
                        lemma_pairs_error_stays(views, (i + 1) as nat, n as nat, line@);
                    }
                    return Err(Error::InvalidArgument(line.to_owned()));
                },
            };
            let rs1 = line.substring_char(0, comma);
            let rs2 = line.substring_char(comma + 1, len);
            let r1 = match parse_range(rs1) {
                Ok(x) => x,
                Err(e) => {
                    proof {
                        let t = range_spec(rs1@)->Err_0;
                        lemma_pairs_error_stays(views, (i + 1) as nat, n as nat, t);
                    }
                    return Err(e);
                },
            };
            let r2 = match parse_range(rs2) {
                Ok(x) => x,
                Err(e) => {
                    proof {
                        let t = range_spec(rs2@)->Err_0;
                        lemma_pairs_error_stays(views, (i + 1) as nat, n as nat, t);
                    }
                    return Err(e);
                },
            };
            let s1 = range_start(&r1);
            let s2 = range_start(&r2);
            let e1 = range_end(&r1);
            let e2 = range_end(&r2);
            if s1 < s2 || (s1 == s2 && e1 >= e2) {
                result.push((r1, r2));
            } else {
                result.push((r2, r1));
            }
        }
    }
    Ok(result)
}

/// The test that `count_redundant` counts by.
pub open spec fn redundant_pred() -> spec_fn((RangeInclusive<u32>, RangeInclusive<u32>)) -> bool {
    |p: (RangeInclusive<u32>, RangeInclusive<u32>)| redundant_spec((p.0@.start, p.0@.end), (p.1@.start, p.1@.end))
}

/// The number of redundant pairs.
pub fn count_redundant(pairs: &Vec<(RangeInclusive<u32>, RangeInclusive<u32>)>) -> (r: usize)
    ensures
        r == pairs@.filter(redundant_pred()).len(),
{
    let ghost pred = redundant_pred();
    let mut count: usize = 0;
    let n = pairs.len();
    for i in 0..n
        invariant
            n == pairs@.len(),
            pred == redundant_pred(),
            count == pairs@.take(i as int).filter(pred).len(),
            count <= i,
    {
        proof {
            reveal_with_fuel(Seq::filter, 1);
            assert(pairs@.take(i + 1).drop_last() =~= pairs@.take(i as int));
        }
        let red = is_redundant_pair(&pairs[i]);
        proof {
            let t = pairs@.take(i + 1);
            assert(t.last() == pairs@[i as int]);
            assert(pred(t.last()) == red);
            assert(t.filter(pred) == if red { t.drop_last().filter(pred).push(t.last()) } else {
                t.drop_last().filter(pred) });
        }
        if red {
            count = count + 1;
        }
    }
    proof {
        assert(pairs@.take(n as int) =~= pairs@);
    }
    count
}

} // verus!
