//! Mirage maintenance: extrapolate each history by taking differences until
//! they are all zero, forwards for the next value or backwards for the one
//! before.
use vstd::prelude::*;
use crate::common::{first_bad_item, item_value, parse_all, string_views, CommonError};
use crate::text::{split_words, trim, trimmed, views_of, words};

verus! {

/// What went wrong.
pub enum Error {
    /// A history ran out of numbers before its differences became zero.
    Empty,
    /// A number did not read; `line` is the item.
    Parse { line: String },
}

/// The differences between neighbours.
pub open spec fn diffs(s: Seq<int>) -> Seq<int> {
    Seq::new((if s.len() > 0 { s.len() - 1 } else { 0 }) as nat, |i: int| s[i + 1] - s[i])
}

/// Every number is zero.
pub open spec fn all_zero(s: Seq<int>) -> bool {
    forall|i: int| 0 <= i < s.len() ==> s[i] == 0
}

/// The value after the history (or, with `back`, the one before it):
/// zero when all the numbers are zero, else the last number plus the
/// value after the differences (the first minus the one before them).
/// `None` when the numbers run out first.
pub open spec fn extrapolated(s: Seq<int>, back: bool) -> Option<int>
    decreases s.len(),
{
    if s.len() == 0 {
        None
    } else if all_zero(s) {
        Some(0)
    } else {
        match extrapolated(diffs(s), back) {
            None => None,
            Some(d) => Some(if back { s[0] - d } else { s.last() + d }),
        }
    }
}

/// Every difference on the way, and every value computed, fits in `i64`.
pub open spec fn fits(s: Seq<int>, back: bool) -> bool
    decreases s.len(),
{
    &&& forall|i: int| 0 <= i < s.len() ==> i64::MIN <= #[trigger] s[i] <= i64::MAX
    &&& (extrapolated(s, back) matches Some(v) ==> i64::MIN <= v <= i64::MAX)
    &&& (s.len() > 0 && !all_zero(s) ==> fits(diffs(s), back))
}

/// The numbers as integers.
pub open spec fn ints(v: Seq<i64>) -> Seq<int> {
    v.map_values(|x: i64| x as int)
}

/// The value after the history, or before it with `back`.
pub fn next_value(v: &Vec<i64>, back: bool) -> (r: Result<i64, Error>)
    requires
        fits(ints(v@), back),
    ensures
        match extrapolated(ints(v@), back) {
            Some(x) => r matches Ok(y) && y == x,
            None => r matches Err(Error::Empty),
        },
    decreases v.len(),
{
    if v.len() == 0 {
        return Err(Error::Empty);
    }
    let mut next: Vec<i64> = Vec::new();
    let mut all_zeroes = true;
    let mut i: usize = 0;
    proof {
        assert(ints(v@).len() == v@.len());
    }
    while i < v.len()
        invariant
            fits(ints(v@), back),
            0 < v.len(),
            i <= v.len(),
            all_zeroes == (forall|k: int| 0 <= k < i ==> v@[k] == 0),
            ints(next@) == diffs(ints(v@)).take(if i > 0 { i - 1 } else { 0 }),
            !(forall|k: int| 0 <= k < i ==> v@[k] == 0) ==> fits(diffs(ints(v@)), back),
        decreases v.len() - i,
    {
        if v[i] != 0 {
            all_zeroes = false;
            proof {
                assert(ints(v@)[i as int] != 0);
                assert(!all_zero(ints(v@)));
            }
        }
        if i > 0 {
            let ghost d = diffs(ints(v@));
            proof {
                if !all_zero(ints(v@)) {
                    assert(i64::MIN <= d[i - 1] <= i64::MAX);
                } else {
                    assert(ints(v@)[i as int] == 0 && ints(v@)[i - 1] == 0);
                }
            }
            let ghost before = ints(next@);
            next.push(v[i] - v[i - 1]);
            assert(d[i - 1] == v@[i as int] - v@[i - 1]);
            assert(ints(next@) =~= before.push(v@[i as int] - v@[i - 1]));
            assert(ints(next@) =~= d.take(i as int));
        }
        i = i + 1;
    }
    if all_zeroes {
        proof {
            assert(all_zero(ints(v@)));
        }
        return Ok(0);
    }
    proof {
        assert(ints(next@) =~= diffs(ints(v@)));
        let k = choose|k: int| 0 <= k < v@.len() && v@[k] != 0;
        assert(ints(v@)[k] != 0);
        assert(!all_zero(ints(v@)));
        assert(ints(v@)[0] == v@[0]);
        assert(ints(v@).last() == v@[v@.len() - 1]);
    }
    let d = match next_value(&next, back) {
        Ok(d) => d,
        Err(e) => {
            return Err(e);
        },
    };
    if back {
        Ok(v[0] - d)
    } else {
        Ok(v[v.len() - 1] + d)
    }
}

/// What a line gives: its numbers (whitespace-separated) extrapolated, or
/// the first thing wrong.
pub open spec fn line_result(line: Seq<char>, back: bool) -> Result<int, Option<Seq<char>>> {
    let items = words(line);
    match first_bad_item(items) {
        Some(k) => Err(Some(trimmed(items[k]))),
        None => match extrapolated(Seq::new(items.len(), |i: int| item_value(items[i])->0), back) {
            Some(x) => Ok(x),
            None => Err(None),
        },
    }
}

/// The sum over the lines that are not blank, each trimmed, or the first
/// thing wrong (`None` for a history that ran out of numbers).
pub open spec fn total_spec(lines: Seq<Seq<char>>, back: bool) -> Result<int, Option<Seq<char>>>
    decreases lines.len(),
{
    if lines.len() == 0 {
        Ok(0)
    } else {
        match total_spec(lines.drop_last(), back) {
            Err(e) => Err(e),
            Ok(t) => {
                let l = trimmed(lines.last());
                if l.len() == 0 {
                    Ok(t)
                } else {
                    match line_result(l, back) {
                        Err(e) => Err(e),
                        Ok(x) => Ok(t + x),
                    }
                }
            },
        }
    }
}

/// The numbers of every line that reads fit, and so do the running sums.
pub open spec fn lines_fit(lines: Seq<Seq<char>>, back: bool) -> bool {
    &&& forall|k: int| 0 <= k < lines.len() ==> (first_bad_item(words(trimmed(#[trigger] lines[k]))) is None ==> fits(
        Seq::new(words(trimmed(lines[k])).len(), |i: int| item_value(words(trimmed(lines[k]))[i])->0),
        back,
    ))
    &&& forall|k: int| 0 <= k <= lines.len() ==> (#[trigger] total_spec(lines.take(k), back) matches Ok(t) ==> i64::MIN <= t
        <= i64::MAX)
}

/// An error as the item that did not read, or `None` for a history that
/// ran out of numbers.
pub open spec fn err_view(e: Error) -> Option<Seq<char>> {
    match e {
        Error::Empty => None,
        Error::Parse { line } => Some(line@),
    }
}

proof fn lemma_total_error(lines: Seq<Seq<char>>, back: bool, k: int, n: int)
    requires
        0 <= k <= n <= lines.len(),
        total_spec(lines.take(k), back) is Err,
    ensures
        total_spec(lines.take(n), back) == total_spec(lines.take(k), back),
    decreases n - k,
{
    if k < n {
        lemma_total_error(lines, back, k, n - 1);
        assert(lines.take(n).drop_last() =~= lines.take(n - 1));
    }
}

/// Extrapolates every history (one a line; blank lines are skipped) and
/// adds the values up.
pub fn extrapolate(lines: &Vec<String>, back: bool) -> (r: Result<i64, Error>)
    requires
        lines_fit(views_of(lines@), back),
    ensures
        match total_spec(views_of(lines@), back) {
            Ok(t) => r matches Ok(x) && x == t,
            Err(e) => r matches Err(x) && err_view(x) == e,
        },
{
    let ghost ls = views_of(lines@);
    let mut total: i64 = 0;
    let mut i: usize = 0;
    assert(ls.take(0) =~= Seq::<Seq<char>>::empty());
    while i < lines.len()
        invariant
            ls == views_of(lines@),
            lines_fit(ls, back),
            i <= lines.len(),
            total_spec(ls.take(i as int), back) == Ok::<int, Option<Seq<char>>>(total as int),
        decreases lines.len() - i,
    {
        assert(ls.take(i + 1).drop_last() =~= ls.take(i as int));
        assert(ls.take(i + 1).last() == lines@[i as int]@);
        let line = trim(lines[i].as_str());
        if line.unicode_len() > 0 {
            let items = split_words(line);
            let ghost iv = views_of(items@);
            proof {
                assert(string_views(items@) == iv);
            }
            match parse_all(&items) {
                Err(CommonError::ParseError { line: bad }) => {
                    proof {
                        lemma_total_error(ls, back, i + 1, ls.len() as int);
                        assert(ls.take(ls.len() as int) =~= ls);
                    }
                    return Err(Error::Parse { line: bad });
                },
                Err(_) => {
                    proof {
                        assert(false);
                    }
                    return Err(Error::Empty);
                },
                Ok(nums) => {
                    proof {
                        assert(first_bad_item(iv) is None);
                        assert(ints(nums@) =~= Seq::new(iv.len(), |j: int| item_value(iv[j])->0));
                        assert(ls[i as int] == lines@[i as int]@);
                    }
                    match next_value(&nums, back) {
                        Err(e) => {
                            proof {
                                lemma_total_error(ls, back, i + 1, ls.len() as int);
                                assert(ls.take(ls.len() as int) =~= ls);
                            }
                            return Err(e);
                        },
                        Ok(x) => {
                            proof {
                                assert(total_spec(ls.take(i + 1), back) matches Ok(t) && i64::MIN <= t <= i64::MAX);
                            }
                            total = total + x;
                        },
                    }
                },
            }
        }
        i = i + 1;
    }
    assert(ls.take(i as int) =~= ls);
    Ok(total)
}

} // verus!
