//! Calorie counting: lines of numbers, one group per elf, groups separated
//! by blank lines; the answer is the largest group total and the sum of the
//! three largest.
use vstd::prelude::*;
use crate::common::string_views;
use crate::text::{parse_i64, parse_int};

verus! {

/// Errors of this puzzle.
pub enum Error {
    /// The input was malformed; the text names the offending part.
    InvalidArgument(String),
}

/// The value of one non-blank line.
pub open spec fn line_value(line: Seq<char>) -> Option<int> {
    parse_int(line, true, i64::MIN as int, i64::MAX as int)
}

/// The value of a line, counting lines that do not parse as zero.
pub open spec fn value_or_zero(line: Seq<char>) -> int {
    match line_value(line) {
        Some(v) => v,
        None => 0,
    }
}

/// The finished group totals and the running total of the open group after
/// the first `n` lines: a blank line closes the open group.
pub open spec fn scan(lines: Seq<Seq<char>>, n: nat) -> (Seq<int>, int)
    decreases n,
{
    if n == 0 {
        (Seq::empty(), 0)
    } else {
        let prev = scan(lines, (n - 1) as nat);
        let line = lines[n - 1];
        if line.len() == 0 {
            (prev.0.push(prev.1), 0)
        } else {
            (prev.0, prev.1 + value_or_zero(line))
        }
    }
}

/// The group totals: every blank line closes a group, and so does the end
/// of the input.
pub open spec fn elf_totals_spec(lines: Seq<Seq<char>>) -> Seq<int> {
    let s = scan(lines, lines.len());
    s.0.push(s.1)
}

/// Line `k` is non-blank and does not parse.
pub open spec fn is_bad(lines: Seq<Seq<char>>, k: int) -> bool {
    lines[k].len() > 0 && line_value(lines[k]) is None
}

/// The first line that is non-blank and does not parse, if any.
pub open spec fn first_bad_line(lines: Seq<Seq<char>>) -> Option<int> {
    if exists|k: int| 0 <= k < lines.len() && #[trigger] is_bad(lines, k)
        && forall|j: int| 0 <= j < k ==> !#[trigger] is_bad(lines, j) {
        Some(choose|k: int| 0 <= k < lines.len() && #[trigger] is_bad(lines, k)
            && forall|j: int| 0 <= j < k ==> !#[trigger] is_bad(lines, j))
    } else {
        None
    }
}

/// Every running total that is computed before a bad line fits in an `i64`.
pub open spec fn sums_fit(lines: Seq<Seq<char>>) -> bool {
    forall|n: nat| n <= lines.len() && (forall|j: int| 0 <= j < n ==> !#[trigger] is_bad(lines, j))
        ==> i64::MIN <= (#[trigger] scan(lines, n)).1 <= i64::MAX
}

/// The integers of a sequence of `i64`s.
pub open spec fn ints(v: Seq<i64>) -> Seq<int> {
    v.map_values(|x: i64| x as int)
}

/// The total of each group of lines.
///
/// `lines` are the input lines, trimmed, blank ones included. Fails with the
/// first non-blank line that is not a decimal `i64`.
pub fn elf_totals(lines: &Vec<String>) -> (r: Result<Vec<i64>, Error>)
    requires
        sums_fit(string_views(lines@)),
    ensures
        first_bad_line(string_views(lines@)) is None ==> (r matches Ok(v) && ints(v@)
            == elf_totals_spec(string_views(lines@))),
        first_bad_line(string_views(lines@)) matches Some(k) ==> (r matches Err(Error::InvalidArgument(s))
            && s@ == lines@[k]@),
{
    let ghost views = string_views(lines@);
    let mut totals: Vec<i64> = Vec::new();
    let mut sum: i64 = 0;
    let n = lines.len();
    for i in 0..n
        invariant
            n == lines@.len(),
            views == string_views(lines@),
            sums_fit(views),
            forall|j: int| 0 <= j < i ==> !#[trigger] is_bad(views, j),
            ints(totals@) == scan(views, i as nat).0,
            sum == scan(views, i as nat).1,
    {
        let line = lines[i].as_str();
        proof {
            assert(views[i as int] == lines@[i as int]@);
        }
        if line.unicode_len() == 0 {
            totals.push(sum);
            sum = 0;
            proof {
                assert(ints(totals@) =~= scan(views, (i + 1) as nat).0);
            }
        } else {
            match parse_i64(line) {
                Some(amount) => {
                    proof {
                        assert(!is_bad(views, i as int));
                        assert forall|j: int| 0 <= j < i + 1 implies !#[trigger] is_bad(views, j) by {}
                        assert(i64::MIN <= scan(views, (i + 1) as nat).1 <= i64::MAX);
                    }
                    sum = sum + amount;
                },
                None => {
                    proof {
                        assert(is_bad(views, i as int));
                        let k = first_bad_line(views)->0;
                        assert(0 <= k < views.len() && is_bad(views, k));
                        if k < i {
                            assert(!is_bad(views, k));
                        }
                        if k > i {
                            assert(!is_bad(views, i as int));
                        }
                    }
                    return Err(Error::InvalidArgument(line.to_owned()));
                },
            }
        }
    }
    totals.push(sum);
    proof {
        assert(ints(totals@) =~= elf_totals_spec(views));
        if exists|k: int| 0 <= k < views.len() && #[trigger] is_bad(views, k)
            && forall|j: int| 0 <= j < k ==> !#[trigger] is_bad(views, j) {
            let k = choose|k: int| 0 <= k < views.len() && #[trigger] is_bad(views, k)
                && forall|j: int| 0 <= j < k ==> !#[trigger] is_bad(views, j);
            assert(!is_bad(views, k));
        }
    }
    Ok(totals)
}

/// The smaller of `a` and `b`.
pub open spec fn min_nat(a: nat, b: nat) -> nat {
    if a < b { a } else { b }
}

/// `top` holds the values of `all` at the distinct positions `idx`, in
/// descending order, at most three of them, and every value of `all` left
/// out is at most the last value kept.
pub open spec fn top_indices(all: Seq<i64>, top: Seq<i64>, idx: Seq<int>) -> bool {
    &&& top.len() == min_nat(3, all.len())
    &&& idx.len() == top.len()
    &&& forall|p: int| 0 <= p < top.len() ==> 0 <= #[trigger] idx[p] < all.len() && all[idx[p]] == top[p]
    &&& forall|p: int, q: int| 0 <= p < q < top.len() ==> idx[p] != idx[q]
    &&& forall|p: int, q: int| 0 <= p < q < top.len() ==> top[p] >= top[q]
    &&& forall|r: int| 0 <= r < all.len() && !idx.contains(r) ==> all[r] <= top.last()
}

/// `top` is made of the three largest values of `all` (all of them when
/// there are fewer), in descending order.
pub open spec fn is_top_three(all: Seq<i64>, top: Seq<i64>) -> bool {
    exists|idx: Seq<int>| top_indices(all, top, idx)
}

/// Inserting into a sequence keeps what it contained.
proof fn lemma_insert_keeps(s: Seq<int>, pos: int, v: int, r: int)
    requires
        0 <= pos <= s.len(),
        s.contains(r),
    ensures
        s.insert(pos, v).contains(r),
{
    let p = choose|p: int| 0 <= p < s.len() && s[p] == r;
    if p < pos {
        assert(s.insert(pos, v)[p] == r);
    } else {
        assert(s.insert(pos, v)[p + 1] == r);
    }
}

/// The three largest totals, largest first.
pub fn top_three(totals: &Vec<i64>) -> (r: Vec<i64>)
    ensures
        is_top_three(totals@, r@),
{
    let mut top: Vec<i64> = Vec::new();
    let ghost mut idx: Seq<int> = Seq::empty();
    let n = totals.len();
    for q in 0..n
        invariant
            n == totals@.len(),
            top_indices(totals@.take(q as int), top@, idx),
            top@.len() < 3 ==> forall|r: int| 0 <= r < q ==> idx.contains(r),
    {
        let x = totals[q];
        let ghost prev = totals@.take(q as int);
        let ghost cur = totals@.take(q + 1);
        // Find where x goes: before the first kept value smaller than it.
        let mut pos: usize = 0;
        while pos < top.len() && top[pos] >= x
            invariant
                pos <= top@.len(),
                forall|p: int| 0 <= p < pos ==> top@[p] >= x,
            decreases top@.len() - pos,
        {
            pos = pos + 1;
        }
        let ghost old_top = top@;
        let ghost old_idx = idx;
        top.insert(pos, x);
        proof {
            idx = idx.insert(pos as int, q as int);
            assert(cur.len() == prev.len() + 1);
            assert forall|p: int| 0 <= p < top@.len() implies 0 <= #[trigger] idx[p] < cur.len()
                && cur[idx[p]] == top@[p] by {
                if p < pos {
                    assert(idx[p] == old_idx[p]);
                } else if p > pos {
                    assert(idx[p] == old_idx[p - 1]);
                }
            }
        }
        if top.len() > 3 {
            let ghost dropped = idx.last();
            top.pop();
            proof {
                let full_idx = idx;
                idx = idx.drop_last();
                assert(top@ =~= old_top.insert(pos as int, x).drop_last());
                assert forall|r: int| 0 <= r < cur.len() && !idx.contains(r) implies cur[r] <= top@.last() by {
                    if r == dropped {
                        assert(full_idx[3] == dropped);
                    } else if r == q {
                        assert(full_idx[pos as int] == q);
                        assert(idx[pos as int] == q);
                    } else {
                        assert(prev[r] == cur[r]);
                        if old_idx.contains(r) {
                            let p = choose|p: int| 0 <= p < old_idx.len() && old_idx[p] == r;
                            if p < pos {
                                assert(idx[p] == r);
                            } else {
                                assert(full_idx[p + 1] == r);
                                if p + 1 < 3 {
                                    assert(idx[p + 1] == r);
                                }
                            }
                        }
                    }
                }
            }
        } else {
            proof {
                assert forall|r: int| 0 <= r <= q implies idx.contains(r) by {
                    if r == q {
                        assert(idx[pos as int] == q);
                    } else {
                        lemma_insert_keeps(old_idx, pos as int, q as int, r);
                    }
                }
            }
        }
        proof {
            assert(totals@.take(q + 1) == cur);
        }
    }
    proof {
        assert(totals@.take(n as int) =~= totals@);
        assert(top_indices(totals@, top@, idx));
    }
    top
}

/// The sum of a sequence of integers.
pub open spec fn sum_of(s: Seq<int>) -> int
    decreases s.len(),
{
    if s.len() == 0 { 0 } else { sum_of(s.drop_last()) + s.last() }
}

/// The sum of the kept totals.
pub fn total(v: &Vec<i64>) -> (r: i64)
    requires
        forall|k: int| 0 <= k <= v@.len() ==> i64::MIN <= #[trigger] sum_of(ints(v@.take(k))) <= i64::MAX,
    ensures
        r == sum_of(ints(v@)),
{
    let mut t: i64 = 0;
    let n = v.len();
    for i in 0..n
        invariant
            n == v@.len(),
            forall|k: int| 0 <= k <= v@.len() ==> i64::MIN <= #[trigger] sum_of(ints(v@.take(k))) <= i64::MAX,
            t == sum_of(ints(v@.take(i as int))),
    {
        proof {
            assert(ints(v@.take(i + 1)).drop_last() =~= ints(v@.take(i as int)));
            assert(i64::MIN <= sum_of(ints(v@.take(i + 1))) <= i64::MAX);
        }
        t = t + v[i];
    }
    proof {
        assert(v@.take(n as int) =~= v@);
    }
    t
}

} // verus!
