//! Hot springs: counting the ways a row of springs, some of unknown state
//! (`?`), can hold runs of damaged springs (`#`) of the listed lengths,
//! separated by working ones (`.`).
use vstd::prelude::*;
use crate::common::split_on;
use crate::text::{chars_of, nonblank, nonblank_lines, parse_int, parse_usize, split_spec, split_str, trim, trimmed, views_of};

verus! {

/// One row: the springs, and the lengths of the damaged runs.
#[derive(Debug)]
pub struct Record {
    pub text: String,
    pub counts: Vec<usize>,
}

/// Why the input cannot be read.
#[derive(Clone, Copy, Debug, PartialEq, Eq, Structural)]
pub enum SpringError {
    /// A line has no space between the springs and the counts.
    NoSpace,
    /// A count is not a number.
    BadNumber,
}

/// The sum of the run lengths.
pub open spec fn total(nums: Seq<usize>) -> int
    decreases nums.len(),
{
    if nums.len() == 0 {
        0
    } else {
        total(nums.drop_last()) + nums.last()
    }
}

/// The fewest springs that can hold the runs: their lengths and a working
/// spring between each two.
pub open spec fn min_len(nums: Seq<usize>) -> int {
    total(nums) + nums.len() - 1
}

/// Every spring is working or unknown.
pub open spec fn is_tail(s: Seq<char>) -> bool {
    forall|i: int| 0 <= i < s.len() ==> (#[trigger] s[i] == '.' || s[i] == '?')
}

/// The springs can be damaged (`#` or `?`).
pub open spec fn can_be_pound(c: char) -> bool {
    c == '#' || c == '?'
}

/// The ways `line` can hold the runs `nums` with the first run starting at
/// its first spring; `None` where the count meets a spring that is none of
/// `.`, `#`, `?`, or has no run to look for.
pub open spec fn pounds_ways(line: Seq<char>, nums: Seq<usize>) -> Option<nat>
    decreases line.len(), 0int,
{
    if nums.len() == 0 {
        None
    } else if line.len() < min_len(nums) {
        Some(0)
    } else {
        let n = nums[0] as int;
        if exists|i: int| 0 <= i < n && !can_be_pound(#[trigger] line[i]) {
            Some(0)
        } else if nums.len() == 1 {
            Some(if is_tail(line.skip(n)) { 1 } else { 0 })
        } else if line[n] != '.' && line[n] != '?' {
            Some(0)
        } else {
            proof {
                lemma_min_len_first(nums);
            }
            dots_ways(line.skip(n + 1), nums.drop_first())
        }
    }
}

/// The ways `line` can hold the runs `nums`, starting anywhere; `None` as
/// for [`pounds_ways`].
pub open spec fn dots_ways(line: Seq<char>, nums: Seq<usize>) -> Option<nat>
    decreases line.len(), 1int,
{
    if nums.len() == 0 {
        None
    } else if line.len() == 0 {
        Some(0)
    } else if line[0] == '.' {
        dots_ways(line.drop_first(), nums)
    } else if line[0] == '#' {
        pounds_ways(line, nums)
    } else if line[0] == '?' {
        match (dots_ways(line.drop_first(), nums), pounds_ways(line, nums)) {
            (Some(a), Some(b)) => Some(a + b),
            _ => None,
        }
    } else {
        None
    }
}

/// A count, when there is one and it fits in a `usize`.
pub open spec fn fitting(o: Option<nat>) -> Option<usize> {
    match o {
        Some(v) => if v <= usize::MAX {
            Some(v as usize)
        } else {
            None
        },
        None => None,
    }
}

/// With two or more runs, the first run and the spring after it fit in
/// the least length.
pub proof fn lemma_min_len_first(nums: Seq<usize>)
    requires
        nums.len() >= 2,
    ensures
        min_len(nums) >= nums[0] + 1,
{
    lemma_total_first(nums);
    lemma_total_suffix(nums, 1);
    assert(nums.skip(1) =~= nums.drop_first());
}

proof fn lemma_total_suffix(nums: Seq<usize>, k: int)
    requires
        0 <= k <= nums.len(),
    ensures
        total(nums.skip(k)) <= total(nums),
        total(nums.skip(k)) >= 0,
        total(nums) >= 0,
    decreases nums.len(),
{
    if nums.len() > 0 {
        if k == nums.len() {
            assert(nums.skip(k).len() == 0);
            lemma_total_suffix(nums.drop_last(), 0);
            assert(nums.drop_last().skip(0) =~= nums.drop_last());
        } else {
            lemma_total_suffix(nums.drop_last(), k);
            assert(nums.skip(k).drop_last() =~= nums.drop_last().skip(k));
        }
    }
}

proof fn lemma_total_first(nums: Seq<usize>)
    requires
        nums.len() > 0,
    ensures
        total(nums) == nums[0] + total(nums.drop_first()),
    decreases nums.len(),
{
    if nums.len() > 1 {
        lemma_total_first(nums.drop_last());
        assert(nums.drop_last().drop_first() =~= nums.drop_first().drop_last());
        assert(nums.drop_first().len() > 0);
        assert(nums.drop_first().last() == nums.last());
        assert(total(nums.drop_first()) == total(nums.drop_first().drop_last()) + nums.drop_first().last());
    } else {
        assert(nums.drop_first().len() == 0);
        assert(nums.drop_last().len() == 0);
        assert(total(nums.drop_last()) == 0);
    }
}

/// Whether every spring from `start` on is working or unknown.
pub fn parse_tail(line: &Vec<char>, start: usize) -> (r: bool)
    requires
        start <= line@.len(),
    ensures
        r == is_tail(line@.skip(start as int)),
{
    let mut i = start;
    while i < line.len()
        invariant
            start <= i <= line@.len(),
            forall|j: int| start <= j < i ==> (#[trigger] line@[j] == '.' || line@[j] == '?'),
        decreases line@.len() - i,
    {
        if line[i] != '.' && line[i] != '?' {
            assert(line@.skip(start as int)[i - start] == line@[i as int]);
            return false;
        }
        i = i + 1;
    }
    assert forall|j: int| 0 <= j < line@.skip(start as int).len() implies (#[trigger] line@.skip(start as int)[j] == '.'
        || line@.skip(start as int)[j] == '?') by {
        assert(line@.skip(start as int)[j] == line@[start + j]);
    }
    true
}

/// The least number of springs the runs from `k` on need, or `None` when
/// it does not fit in a `usize`.
fn needed(nums: &Vec<usize>, k: usize) -> (r: Option<usize>)
    requires
        k < nums@.len(),
    ensures
        r matches Some(m) ==> m == min_len(nums@.skip(k as int)),
        r is None ==> min_len(nums@.skip(k as int)) > usize::MAX,
{
    let ghost s = nums@.skip(k as int);
    let mut sum: usize = 0;
    let mut i = k;
    while i < nums.len()
        invariant
            k <= i <= nums@.len(),
            s == nums@.skip(k as int),
            sum == total(nums@.subrange(k as int, i as int)),
        decreases nums@.len() - i,
    {
        assert(nums@.subrange(k as int, i + 1).drop_last() =~= nums@.subrange(k as int, i as int));
        if sum > usize::MAX - nums[i] {
            proof {
                lemma_total_suffix(nums@.subrange(k as int, nums@.len() as int), i + 1 - k);
                assert(nums@.subrange(k as int, nums@.len() as int).skip(i + 1 - k) =~= nums@.subrange(i + 1, nums@.len() as int));
                lemma_total_split(nums@.subrange(k as int, nums@.len() as int), i + 1 - k);
                assert(nums@.subrange(k as int, nums@.len() as int).take(i + 1 - k) =~= nums@.subrange(k as int, i + 1));
                assert(nums@.subrange(k as int, nums@.len() as int) =~= s);
            }
            return None;
        }
        sum = sum + nums[i];
        i = i + 1;
    }
    assert(nums@.subrange(k as int, i as int) =~= s);
    let extra = nums.len() - k - 1;
    if sum > usize::MAX - extra {
        return None;
    }
    Some(sum + extra)
}

proof fn lemma_total_split(nums: Seq<usize>, k: int)
    requires
        0 <= k <= nums.len(),
    ensures
        total(nums) == total(nums.take(k)) + total(nums.skip(k)),
    decreases nums.len() - k,
{
    if k < nums.len() {
        lemma_total_split(nums, k + 1);
        assert(nums.take(k + 1).drop_last() =~= nums.take(k));
        assert(nums.skip(k).drop_first() =~= nums.skip(k + 1));
        lemma_total_first(nums.skip(k));
    } else {
        assert(nums.take(k) =~= nums);
        assert(nums.skip(k).len() == 0);
    }
}

/// The ways the springs from `start` on can hold the runs from `k` on,
/// the first run starting at `start`; `None` where the count is not
/// defined or does not fit.
fn pounds_checked(line: &Vec<char>, start: usize, nums: &Vec<usize>, k: usize) -> (r: Option<usize>)
    requires
        start <= line@.len(),
        k <= nums@.len(),
    ensures
        r == fitting(pounds_ways(line@.skip(start as int), nums@.skip(k as int))),
    decreases line@.len() - start, 0int,
{
    let ghost l = line@.skip(start as int);
    let ghost ns = nums@.skip(k as int);
    if k >= nums.len() {
        return None;
    }
    let room = line.len() - start;
    match needed(nums, k) {
        None => {
            return Some(0);
        },
        Some(m) => {
            if room < m {
                return Some(0);
            }
        },
    }
    proof {
        lemma_total_first(ns);
        lemma_total_suffix(ns, 1);
    }
    let n = nums[k];
    assert(ns[0] == n);
    let mut i: usize = 0;
    while i < n
        invariant
            i <= n,
            n <= l.len(),
            l == line@.skip(start as int),
            start + l.len() == line@.len(),
            start + l.len() == line.len(),
            forall|j: int| 0 <= j < i ==> can_be_pound(#[trigger] l[j]),
            ns == nums@.skip(k as int),
            ns.len() > 0,
            ns[0] == n,
            l.len() >= min_len(ns),
        decreases n - i,
    {
        let c = line[start + i];
        assert(c == l[i as int]);
        if c != '#' && c != '?' {
            assert(!can_be_pound(l[i as int]));
            return Some(0);
        }
        i = i + 1;
    }
    assert(!exists|j: int| 0 <= j < n && !can_be_pound(#[trigger] l[j]));
    if nums.len() - k == 1 {
        let t = parse_tail(line, start + n);
        assert(line@.skip(start + n) =~= l.skip(n as int));
        return Some(if t { 1 } else { 0 });
    }
    assert(n < l.len());
    let c = line[start + n];
    assert(c == l[n as int]);
    if c != '.' && c != '?' {
        return Some(0);
    }
    assert(line@.skip(start + n + 1) =~= l.skip(n + 1));
    assert(nums@.skip(k + 1) =~= ns.drop_first());
    dots_checked(line, start + n + 1, nums, k + 1)
}

/// The ways the springs from `start` on can hold the runs from `k` on;
/// `None` where the count is not defined or does not fit.
fn dots_checked(line: &Vec<char>, start: usize, nums: &Vec<usize>, k: usize) -> (r: Option<usize>)
    requires
        start <= line@.len(),
        k <= nums@.len(),
    ensures
        r == fitting(dots_ways(line@.skip(start as int), nums@.skip(k as int))),
    decreases line@.len() - start, 1int,
{
    let ghost l = line@.skip(start as int);
    if k >= nums.len() {
        return None;
    }
    if start >= line.len() {
        return Some(0);
    }
    let c = line[start];
    assert(c == l[0]);
    assert(line@.skip(start + 1) =~= l.drop_first());
    if c == '.' {
        dots_checked(line, start + 1, nums, k)
    } else if c == '#' {
        pounds_checked(line, start, nums, k)
    } else if c == '?' {
        let a = dots_checked(line, start + 1, nums, k);
        match a {
            None => {
                return None;
            },
            Some(a) => {
                let b = pounds_checked(line, start, nums, k);
                match b {
                    None => None,
                    Some(b) => {
                        if a > usize::MAX - b {
                            None
                        } else {
                            Some(a + b)
                        }
                    },
                }
            },
        }
    } else {
        None
    }
}

/// The ways the springs from `start` on can hold the runs from `k` on,
/// the first run starting at `start`.
pub fn parse_pounds(line: &Vec<char>, start: usize, nums: &Vec<usize>, k: usize) -> (r: usize)
    requires
        start <= line@.len(),
        k <= nums@.len(),
        fitting(pounds_ways(line@.skip(start as int), nums@.skip(k as int))) is Some,
    ensures
        Some(r) == fitting(pounds_ways(line@.skip(start as int), nums@.skip(k as int))),
{
    pounds_checked(line, start, nums, k).unwrap()
}

/// The ways the springs from `start` on can hold the runs from `k` on.
pub fn parse_dots(line: &Vec<char>, start: usize, nums: &Vec<usize>, k: usize) -> (r: usize)
    requires
        start <= line@.len(),
        k <= nums@.len(),
        fitting(dots_ways(line@.skip(start as int), nums@.skip(k as int))) is Some,
    ensures
        Some(r) == fitting(dots_ways(line@.skip(start as int), nums@.skip(k as int))),
{
    dots_checked(line, start, nums, k).unwrap()
}

/// The ways a row's springs can hold its runs; `None` where the count is
/// not defined (no runs, or a spring that is none of `.#?` in its way) or
/// does not fit in a `usize`.
pub fn process_record(record: &Record) -> (r: Option<usize>)
    ensures
        r == fitting(dots_ways(record.text@, record.counts@)),
{
    let line = chars_of(record.text.as_str());
    let nums = record.counts.clone();
    assert(line@.skip(0) =~= line@);
    assert(nums@.skip(0) =~= nums@);
    dots_checked(&line, 0, &nums, 0)
}

/// Five copies of a row's springs, joined by `?`.
pub open spec fn five_texts(t: Seq<char>) -> Seq<char> {
    t + seq!['?'] + t + seq!['?'] + t + seq!['?'] + t + seq!['?'] + t
}

impl Record {
    /// The unfolded row: five copies of the springs joined by `?`, and
    /// five copies of the runs.
    pub fn expand(&self) -> (r: Record)
        ensures
            r.text@ == five_texts(self.text@),
            r.counts@ == self.counts@ + self.counts@ + self.counts@ + self.counts@ + self.counts@,
    {
        let mut text = self.text.clone();
        let mut copy: usize = 1;
        while copy < 5
            invariant
                1 <= copy <= 5,
                self.text@ == self.text@,
                copy == 1 ==> text@ == self.text@,
                copy == 2 ==> text@ == self.text@ + seq!['?'] + self.text@,
                copy == 3 ==> text@ == self.text@ + seq!['?'] + self.text@ + seq!['?'] + self.text@,
                copy == 4 ==> text@ == self.text@ + seq!['?'] + self.text@ + seq!['?'] + self.text@ + seq!['?'] + self.text@,
                copy == 5 ==> text@ == five_texts(self.text@),
            decreases 5 - copy,
        {
            let ghost before = text@;
            text.append("?");
            text.append(self.text.as_str());
            proof {
                reveal_strlit("?");
            }
            assert(text@ =~= before + seq!['?'] + self.text@);
            copy = copy + 1;
        }
        let mut counts: Vec<usize> = Vec::new();
        let mut rep: usize = 0;
        while rep < 5
            invariant
                rep <= 5,
                rep == 0 ==> counts@ == Seq::<usize>::empty(),
                rep == 1 ==> counts@ == self.counts@,
                rep == 2 ==> counts@ == self.counts@ + self.counts@,
                rep == 3 ==> counts@ == self.counts@ + self.counts@ + self.counts@,
                rep == 4 ==> counts@ == self.counts@ + self.counts@ + self.counts@ + self.counts@,
                rep == 5 ==> counts@ == self.counts@ + self.counts@ + self.counts@ + self.counts@ + self.counts@,
            decreases 5 - rep,
        {
            let ghost before = counts@;
            let mut j: usize = 0;
            while j < self.counts.len()
                invariant
                    j <= self.counts@.len(),
                    counts@ == before + self.counts@.take(j as int),
                decreases self.counts@.len() - j,
            {
                counts.push(self.counts[j]);
                j = j + 1;
                assert(counts@ =~= before + self.counts@.take(j as int));
            }
            assert(self.counts@.take(j as int) =~= self.counts@);
            rep = rep + 1;
        }
        assert(counts@ =~= self.counts@ + self.counts@ + self.counts@ + self.counts@ + self.counts@);
        Record { text, counts }
    }
}

/// The counts a list gives: each item between commas, trimmed, as a
/// `usize`; `None` when one is not.
pub open spec fn counts_of(items: Seq<Seq<char>>) -> Option<Seq<usize>>
    decreases items.len(),
{
    if items.len() == 0 {
        Some(Seq::empty())
    } else {
        match (counts_of(items.drop_last()), parse_int(trimmed(items.last()), false, 0, usize::MAX as int)) {
            (Some(v), Some(n)) => Some(v.push(n as usize)),
            _ => None,
        }
    }
}

/// Reads a comma-separated list of counts.
pub fn parse_num_list(line: &str) -> (r: Result<Vec<usize>, SpringError>)
    ensures
        r matches Ok(v) ==> counts_of(split_spec(line@, seq![','])) == Some(v@),
        r is Err ==> counts_of(split_spec(line@, seq![','])) is None && r == Err::<Vec<usize>, SpringError>(SpringError::BadNumber),
{
    proof {
        reveal_strlit(",");
        assert(","@ =~= seq![',']);
    }
    let parts = split_str(line, ",");
    let ghost items = views_of(parts@);
    let mut v: Vec<usize> = Vec::new();
    let mut i: usize = 0;
    while i < parts.len()
        invariant
            items == views_of(parts@),
            items == split_spec(line@, seq![',']),
            i <= parts@.len(),
            counts_of(items.take(i as int)) == Some(v@),
        decreases parts@.len() - i,
    {
        assert(items.take(i + 1).drop_last() =~= items.take(i as int));
        assert(items.take(i + 1).last() == parts@[i as int]@);
        let part = trim(parts[i].as_str());
        match parse_usize(part) {
            Some(n) => {
                v.push(n);
            },
            None => {
                proof {
                    lemma_counts_prefix_none(items, i as int + 1);
                }
                return Err(SpringError::BadNumber);
            },
        }
        i = i + 1;
    }
    assert(items.take(i as int) =~= items);
    Ok(v)
}

proof fn lemma_counts_prefix_none(items: Seq<Seq<char>>, k: int)
    requires
        0 <= k <= items.len(),
        counts_of(items.take(k)) is None,
    ensures
        counts_of(items) is None,
    decreases items.len() - k,
{
    if k < items.len() {
        assert(items.take(k + 1).drop_last() =~= items.take(k));
        lemma_counts_prefix_none(items, k + 1);
    } else {
        assert(items.take(k) =~= items);
    }
}

/// What one line gives: the springs before its first space and the counts
/// after it.
pub open spec fn record_of(line: Seq<char>) -> Result<(Seq<char>, Seq<usize>), SpringError> {
    match crate::text::find_spec(line, ' ') {
        None => Err(SpringError::NoSpace),
        Some(i) => match counts_of(split_spec(line.skip(i + 1), seq![','])) {
            None => Err(SpringError::BadNumber),
            Some(c) => Ok((line.take(i), c)),
        },
    }
}

/// What the lines give: a record for each, or the error of the first
/// line that fails.
pub open spec fn records_of(lines: Seq<Seq<char>>) -> Result<Seq<(Seq<char>, Seq<usize>)>, SpringError>
    decreases lines.len(),
{
    if lines.len() == 0 {
        Ok(Seq::empty())
    } else {
        match records_of(lines.drop_last()) {
            Err(e) => Err(e),
            Ok(v) => match record_of(lines.last()) {
                Err(e) => Err(e),
                Ok(r) => Ok(v.push(r)),
            },
        }
    }
}

pub open spec fn record_views(v: Seq<Record>) -> Seq<(Seq<char>, Seq<usize>)> {
    v.map_values(|r: Record| (r.text@, r.counts@))
}

/// Reads the rows (blank lines skipped, each trimmed).
pub fn read_input(lines: &Vec<String>) -> (r: Result<Vec<Record>, SpringError>)
    ensures
        r matches Ok(v) ==> records_of(nonblank(views_of(lines@))) == Ok::<Seq<(Seq<char>, Seq<usize>)>, SpringError>(record_views(v@)),
        r matches Err(e) ==> records_of(nonblank(views_of(lines@))) == Err::<Seq<(Seq<char>, Seq<usize>)>, SpringError>(e),
{
    let nb = nonblank_lines(lines);
    let ghost rows = views_of(nb@);
    let mut v: Vec<Record> = Vec::new();
    assert(record_views(v@) =~= Seq::empty());
    assert(rows.take(0) =~= Seq::empty());
    let mut i: usize = 0;
    while i < nb.len()
        invariant
            rows == views_of(nb@),
            rows == nonblank(views_of(lines@)),
            i <= nb@.len(),
            records_of(rows.take(i as int)) == Ok::<Seq<(Seq<char>, Seq<usize>)>, SpringError>(record_views(v@)),
        decreases nb@.len() - i,
    {
        assert(rows.take(i + 1).drop_last() =~= rows.take(i as int));
        assert(rows.take(i + 1).last() == nb@[i as int]@);
        let line = nb[i].as_str();
        match split_on(line, ' ') {
            None => {
                proof {
                    lemma_records_prefix_err(rows, i as int + 1);
                }
                return Err(SpringError::NoSpace);
            },
            Some((text, count_text)) => {
                match parse_num_list(count_text) {
                    Err(e) => {
                        proof {
                            lemma_records_prefix_err(rows, i as int + 1);
                        }
                        return Err(e);
                    },
                    Ok(counts) => {
                        let ghost before = v@;
                        v.push(Record { text: text.to_string(), counts });
                        assert(record_views(v@) =~= record_views(before).push((text@, counts@)));
                    },
                }
            },
        }
        i = i + 1;
    }
    assert(rows.take(i as int) =~= rows);
    Ok(v)
}

proof fn lemma_records_prefix_err(lines: Seq<Seq<char>>, k: int)
    requires
        0 <= k <= lines.len(),
        records_of(lines.take(k)) is Err,
    ensures
        records_of(lines) == records_of(lines.take(k)),
    decreases lines.len() - k,
{
    if k < lines.len() {
        assert(lines.take(k + 1).drop_last() =~= lines.take(k));
        lemma_records_prefix_err(lines, k + 1);
    } else {
        assert(lines.take(k) =~= lines);
    }
}

} // verus!
