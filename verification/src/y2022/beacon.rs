//! Beacon exclusion zone: sensors and their closest beacons; count the
//! positions on one row where no beacon can be.
use vstd::prelude::*;
use crate::text::{find_spec, parse_i64, parse_int, find_char, strip_prefix, nonblank, nonblank_lines, views_of};

verus! {

/// Errors of this puzzle.
pub enum Error {
    /// A line does not have the shape of a report; the text is the line.
    InvalidLine(String),
    /// A coordinate is not an `i64`; the text is the coordinate.
    InvalidNumber(String),
}

/// Why a line does not parse, as plain values.
pub enum Failure {
    InvalidLine(Seq<char>),
    InvalidNumber(Seq<char>),
}

/// A failure as a plain value.
pub open spec fn failure(e: Error) -> Failure {
    match e {
        Error::InvalidLine(s) => Failure::InvalidLine(s@),
        Error::InvalidNumber(s) => Failure::InvalidNumber(s@),
    }
}

/// A sensor and the beacon closest to it.
#[derive(Clone, Copy)]
pub struct Entry {
    pub sensor: (i64, i64),
    pub beacon: (i64, i64),
}

/// What `s` holds after `p`, when it starts with `p`.
pub open spec fn after(s: Seq<char>, p: Seq<char>) -> Option<Seq<char>> {
    if p.len() <= s.len() && s.take(p.len() as int) == p {
        Some(s.skip(p.len() as int))
    } else {
        None
    }
}

/// The four coordinate texts of a report line, in the order sensor x,
/// sensor y, beacon x, beacon y; `None` when the line has another shape.
pub open spec fn fields(s: Seq<char>) -> Option<(Seq<char>, Seq<char>, Seq<char>, Seq<char>)> {
    match after(s, "Sensor at x="@) {
        None => None,
        Some(s1) => match find_spec(s1, ',') {
            None => None,
            Some(i) => match after(s1.skip(i), ", y="@) {
                None => None,
                Some(s2) => match find_spec(s2, ':') {
                    None => None,
                    Some(j) => match after(s2.skip(j), ": closest beacon is at x="@) {
                        None => None,
                        Some(s3) => match find_spec(s3, ',') {
                            None => None,
                            Some(k) => match after(s3.skip(k), ", y="@) {
                                None => None,
                                Some(s4) => Some((s1.take(i), s2.take(j), s3.take(k), s4)),
                            },
                        },
                    },
                },
            },
        },
    }
}

/// The value of a decimal `i64`.
pub open spec fn value(s: Seq<char>) -> Option<int> {
    parse_int(s, true, i64::MIN as int, i64::MAX as int)
}

/// What a report line says, or why it does not parse: its shape is
/// checked first, then the numbers from the left.
pub open spec fn entry_spec(s: Seq<char>) -> Result<(int, int, int, int), Failure> {
    match fields(s) {
        None => Err(Failure::InvalidLine(s)),
        Some((a, b, c, d)) => match (value(a), value(b), value(c), value(d)) {
            (None, _, _, _) => Err(Failure::InvalidNumber(a)),
            (Some(_), None, _, _) => Err(Failure::InvalidNumber(b)),
            (Some(_), Some(_), None, _) => Err(Failure::InvalidNumber(c)),
            (Some(_), Some(_), Some(_), None) => Err(Failure::InvalidNumber(d)),
            (Some(w), Some(x), Some(y), Some(z)) => Ok((w, x, y, z)),
        },
    }
}

/// An entry as plain values.
pub open spec fn entry_view(e: Entry) -> (int, int, int, int) {
    (e.sensor.0 as int, e.sensor.1 as int, e.beacon.0 as int, e.beacon.1 as int)
}

/// Splits `s` at the first `c`, keeping the `c` at the start of the rest.
fn split_before(s: &str, c: char) -> (r: Option<(&str, &str)>)
    ensures
        find_spec(s@, c) is None ==> r is None,
        find_spec(s@, c) matches Some(i) ==> (r matches Some((a, b)) && a@ == s@.take(i) && b@ == s@.skip(i)),
{
    match find_char(s, c) {
        Some(i) => {
            let n = s.unicode_len();
            Some((s.substring_char(0, i), s.substring_char(i, n)))
        },
        None => None,
    }
}

impl Entry {
    /// Parses `Sensor at x=A, y=B: closest beacon is at x=C, y=D`.
    pub fn parse(s: &str) -> (r: Result<Entry, Error>)
        ensures
            entry_spec(s@) matches Ok(t) ==> r matches Ok(e) && entry_view(e) == t,
            entry_spec(s@) matches Err(f) ==> r matches Err(e) && failure(e) == f,
    {
        let p1 = "Sensor at x=";
        let p2 = ", y=";
        let p3 = ": closest beacon is at x=";
        proof {
            reveal_strlit("Sensor at x=");
            reveal_strlit(", y=");
            reveal_strlit(": closest beacon is at x=");
        }
        let s1 = match strip_prefix(s, p1) {
            Some(t) => t,
            None => return Err(Error::InvalidLine(s.to_owned())),
        };
        let (ssx, rest) = match split_before(s1, ',') {
            Some(p) => p,
            None => return Err(Error::InvalidLine(s.to_owned())),
        };
        let s2 = match strip_prefix(rest, p2) {
            Some(t) => t,
            None => return Err(Error::InvalidLine(s.to_owned())),
        };
        let (ssy, rest) = match split_before(s2, ':') {
            Some(p) => p,
            None => return Err(Error::InvalidLine(s.to_owned())),
        };
        let s3 = match strip_prefix(rest, p3) {
            Some(t) => t,
            None => return Err(Error::InvalidLine(s.to_owned())),
        };
        let (sbx, rest) = match split_before(s3, ',') {
            Some(p) => p,
            None => return Err(Error::InvalidLine(s.to_owned())),
        };
        let sby = match strip_prefix(rest, p2) {
            Some(t) => t,
            None => return Err(Error::InvalidLine(s.to_owned())),
        };
        let sx = match parse_i64(ssx) {
            Some(n) => n,
            None => return Err(Error::InvalidNumber(ssx.to_owned())),
        };
        let sy = match parse_i64(ssy) {
            Some(n) => n,
            None => return Err(Error::InvalidNumber(ssy.to_owned())),
        };
        let bx = match parse_i64(sbx) {
            Some(n) => n,
            None => return Err(Error::InvalidNumber(sbx.to_owned())),
        };
        let by = match parse_i64(sby) {
            Some(n) => n,
            None => return Err(Error::InvalidNumber(sby.to_owned())),
        };
        Ok(Entry { sensor: (sx, sy), beacon: (bx, by) })
    }
}

/// The absolute value of `v`.
pub open spec fn abs(v: int) -> int {
    if v < 0 { -v } else { v }
}

/// The Manhattan distance from the sensor to its beacon.
pub open spec fn dist_spec(e: (int, int, int, int)) -> int {
    abs(e.0 - e.2) + abs(e.1 - e.3)
}

/// The half-open range `[from, to)` of x positions on row `y` within the
/// sensor's distance, if any.
pub open spec fn range_spec(e: (int, int, int, int), y: int) -> Option<(int, int)> {
    let remaining = dist_spec(e) - abs(e.1 - y);
    if remaining < 0 {
        None
    } else {
        Some((e.0 - remaining, e.0 + remaining + 1))
    }
}

/// The numbers of the entry and of its range on row `y` fit in `i64`.
pub open spec fn entry_fits(e: (int, int, int, int), y: int) -> bool {
    &&& dist_spec(e) <= i64::MAX
    &&& abs(e.0 - e.2) <= i64::MAX
    &&& abs(e.1 - e.3) <= i64::MAX
    &&& abs(e.1 - y) <= i64::MAX
    &&& range_spec(e, y) matches Some(r) ==> i64::MIN <= r.0 && r.1 <= i64::MAX
}

/// `|a - b|` of two `i64`s whose difference fits.
fn abs_diff(a: i64, b: i64) -> (r: i64)
    requires
        abs(a - b) <= i64::MAX,
    ensures
        r == abs(a - b),
{
    let d = a - b;
    if d < 0 { -d } else { d }
}

impl Entry {
    /// The Manhattan distance from the sensor to its beacon.
    pub fn dist(&self) -> (r: i64)
        requires
            abs(self.sensor.0 - self.beacon.0) <= i64::MAX,
            abs(self.sensor.1 - self.beacon.1) <= i64::MAX,
            dist_spec(entry_view(*self)) <= i64::MAX,
        ensures
            r == dist_spec(entry_view(*self)),
    {
        abs_diff(self.sensor.0, self.beacon.0) + abs_diff(self.sensor.1, self.beacon.1)
    }

    /// The x positions `[from, to)` on row `y` that are no farther from the
    /// sensor than its beacon, if any.
    pub fn range_for_y(&self, y: i64) -> (r: Option<(i64, i64)>)
        requires
            entry_fits(entry_view(*self), y as int),
        ensures
            match r {
                Some(p) => range_spec(entry_view(*self), y as int) == Some((p.0 as int, p.1 as int)),
                None => range_spec(entry_view(*self), y as int) is None,
            },
    {
        let dist_to_row = abs_diff(self.sensor.1, y);
        let remaining = self.dist() - dist_to_row;
        if remaining < 0 {
            None
        } else {
            Some((self.sensor.0 - remaining, self.sensor.0 + remaining + 1))
        }
    }
}

/// `a` comes before or equals `b`: by the first item, then the second.
pub open spec fn pair_le(a: (i64, i64), b: (i64, i64)) -> bool {
    a.0 < b.0 || (a.0 == b.0 && a.1 <= b.1)
}

/// The pairs are in ascending order.
pub open spec fn pairs_sorted(s: Seq<(i64, i64)>) -> bool {
    forall|i: int, j: int| 0 <= i < j < s.len() ==> pair_le(#[trigger] s[i], #[trigger] s[j])
}

/// Sorts pairs in ascending order.
///
/// Calls `slice::sort`, which rearranges the elements into ascending order
/// by the pairs' `Ord`, lexicographic for tuples: by the first item, then
/// the second.
#[verifier::external_body]
fn sort_pairs(v: &mut Vec<(i64, i64)>)
    ensures
        pairs_sorted(final(v)@),
        final(v)@.to_multiset() == old(v)@.to_multiset(),
{
    v.sort()
}

/// The ranges of the first `n` entries on row `y`, in entry order.
pub open spec fn ranges_of(es: Seq<(int, int, int, int)>, y: int, n: nat) -> Seq<(i64, i64)>
    decreases n,
{
    if n == 0 {
        Seq::empty()
    } else {
        let rest = ranges_of(es, y, (n - 1) as nat);
        match range_spec(es[n - 1], y) {
            Some(r) => rest.push((r.0 as i64, r.1 as i64)),
            None => rest,
        }
    }
}

/// The entries as plain values.
pub open spec fn entries_view(es: Seq<Entry>) -> Seq<(int, int, int, int)> {
    es.map_values(|e: Entry| entry_view(e))
}

/// The ranges of the entries on row `y`, sorted.
pub fn get_ranges(entries: &Vec<Entry>, y: i64) -> (r: Vec<(i64, i64)>)
    requires
        forall|k: int| 0 <= k < entries@.len() ==> entry_fits(entry_view(#[trigger] entries@[k]), y as int),
    ensures
        pairs_sorted(r@),
        r@.to_multiset() == ranges_of(entries_view(entries@), y as int, entries@.len() as nat).to_multiset(),
{
    let ghost es = entries_view(entries@);
    let mut ranges: Vec<(i64, i64)> = Vec::new();
    let n = entries.len();
    for k in 0..n
        invariant
            n == entries@.len(),
            es == entries_view(entries@),
            forall|j: int| 0 <= j < entries@.len() ==> entry_fits(entry_view(#[trigger] entries@[j]), y as int),
            ranges@ == ranges_of(es, y as int, k as nat),
    {
        proof {
            assert(es[k as int] == entry_view(entries@[k as int]));
        }
        if let Some(range) = entries[k].range_for_y(y) {
            ranges.push(range);
        }
    }
    sort_pairs(&mut ranges);
    ranges
}

/// Where the sweep over the first `n` ranges stands: the end of what it
/// has covered, from `i64::MIN`, and how many positions it has counted.
pub open spec fn sweep(rs: Seq<(i64, i64)>, n: nat) -> (int, int)
    decreases n,
{
    if n == 0 {
        (i64::MIN as int, 0)
    } else {
        let (x, sum) = sweep(rs, (n - 1) as nat);
        let r = rs[n - 1];
        if r.1 < x {
            (x, sum)
        } else {
            let start = if x > r.0 { x } else { r.0 as int };
            (r.1 as int, sum + (r.1 - start))
        }
    }
}

/// Every count the sweep makes fits in `i64`.
pub open spec fn sweep_fits(rs: Seq<(i64, i64)>) -> bool {
    forall|n: nat| 1 <= n <= rs.len() ==> ({
        let (x, sum) = #[trigger] sweep(rs, (n - 1) as nat);
        let r = rs[n - 1];
        let start = if x > r.0 { x } else { r.0 as int };
        r.1 >= x ==> i64::MIN <= r.1 - start <= i64::MAX && i64::MIN <= sum + (r.1 - start) <= i64::MAX
    })
}

/// Sweeps sorted ranges left to right and counts the positions they cover,
/// each once.
pub fn sum_ranges(ranges: &Vec<(i64, i64)>) -> (r: i64)
    requires
        sweep_fits(ranges@),
    ensures
        r == sweep(ranges@, ranges@.len() as nat).1,
{
    let mut x: i64 = i64::MIN;
    let mut sum: i64 = 0;
    let n = ranges.len();
    for k in 0..n
        invariant
            n == ranges@.len(),
            sweep_fits(ranges@),
            (x as int, sum as int) == sweep(ranges@, k as nat),
    {
        let range = ranges[k];
        proof {
            let m = (k + 1) as nat;
            assert(((m - 1) as nat) == k as nat);
            let _ = sweep(ranges@, (m - 1) as nat);
        }
        if range.1 >= x {
            let start = if x > range.0 { x } else { range.0 };
            sum = sum + (range.1 - start);
            x = range.1;
        }
    }
    sum
}

/// The entries among the first `n` whose beacon is on row `y` at an x
/// position that no earlier such entry's beacon has.
pub open spec fn new_beacons(es: Seq<(int, int, int, int)>, y: int, n: nat) -> int
    decreases n,
{
    if n == 0 {
        0
    } else {
        new_beacons(es, y, (n - 1) as nat) + if es[n - 1].3 == y && !(exists|j: int|
            0 <= j < n - 1 && es[j].3 == y && #[trigger] es[j].2 == es[n - 1].2) {
            1int
        } else {
            0int
        }
    }
}

proof fn lemma_new_beacons(es: Seq<(int, int, int, int)>, y: int, n: nat)
    ensures
        0 <= new_beacons(es, y, n) <= n,
    decreases n,
{
    if n > 0 {
        lemma_new_beacons(es, y, (n - 1) as nat);
    }
}

/// The number of distinct beacons on row `y`.
pub fn count_beacons(entries: &Vec<Entry>, y: i64) -> (r: i64)
    requires
        entries@.len() <= i64::MAX,
    ensures
        r == new_beacons(entries_view(entries@), y as int, entries@.len() as nat),
{
    let ghost es = entries_view(entries@);
    let mut sum: i64 = 0;
    let mut seen: Vec<i64> = Vec::new();
    let n = entries.len();
    for k in 0..n
        invariant
            n == entries@.len(),
            es == entries_view(entries@),
            sum == new_beacons(es, y as int, k as nat),
            sum <= k,
            n <= i64::MAX,
            forall|x: i64| seen@.contains(x) <==> exists|j: int| 0 <= j < k && es[j].3 == y && #[trigger] es[j].2 == x,
    {
        let e = entries[k];
        proof {
            assert(es[k as int] == entry_view(e));
            lemma_new_beacons(es, y as int, k as nat);
        }
        if e.beacon.1 == y {
            let mut found = false;
            let m = seen.len();
            for j in 0..m
                invariant
                    m == seen@.len(),
                    found == exists|q: int| 0 <= q < j && seen@[q] == e.beacon.0,
            {
                if seen[j] == e.beacon.0 {
                    found = true;
                }
            }
            proof {
                if seen@.contains(e.beacon.0) {
                    let q = choose|q: int| 0 <= q < m && seen@[q] == e.beacon.0;
                    assert(found);
                }
                let ex = exists|j: int| 0 <= j < k && es[j].3 == y && #[trigger] es[j].2 == es[k as int].2;
                assert(seen@.contains(e.beacon.0) == ex);
            }
            if !found {
            let ghost before = seen@;
            seen.push(e.beacon.0);
            proof {
                assert forall|x: i64| seen@.contains(x) <==> exists|j: int| 0 <= j < k + 1 && es[j].3 == y && #[trigger] es[j].2 == x by {
                    if seen@.contains(x) && x != e.beacon.0 {
                        let q = choose|q: int| 0 <= q < seen@.len() && seen@[q] == x;
                        assert(before[q] == x);
                        assert(before.contains(x));
                    }
                    if x == e.beacon.0 {
                        assert(seen@[seen@.len() - 1] == x);
                        assert(es[k as int].2 == x);
                    }
                    if exists|j: int| 0 <= j < k + 1 && es[j].3 == y && #[trigger] es[j].2 == x {
                        let j = choose|j: int| 0 <= j < k + 1 && es[j].3 == y && #[trigger] es[j].2 == x;
                        if j < k {
                            assert(before.contains(x));
                            let q = choose|q: int| 0 <= q < before.len() && before[q] == x;
                            assert(seen@[q] == x);
                        }
                    }
                }
            }
            sum = sum + 1;
            }
        } else {
            proof {
                assert forall|x: i64| seen@.contains(x) <==> exists|j: int| 0 <= j < k + 1 && es[j].3 == y && #[trigger] es[j].2 == x by {
                    if exists|j: int| 0 <= j < k + 1 && es[j].3 == y && #[trigger] es[j].2 == x {
                        let j = choose|j: int| 0 <= j < k + 1 && es[j].3 == y && #[trigger] es[j].2 == x;
                        assert(j < k);
                    }
                }
            }
        }
    }
    sum
}

/// A sorted arrangement of the ranges of the entries on row `y`.
pub open spec fn sorted_ranges(es: Seq<(int, int, int, int)>, y: int, p: Seq<(i64, i64)>) -> bool {
    pairs_sorted(p) && p.to_multiset() == ranges_of(es, y, es.len()).to_multiset()
}

/// The number of positions on row `y` where no beacon can be: those that
/// some sensor's range covers, less the distinct beacons on the row.
pub fn part1(entries: &Vec<Entry>, y: i64) -> (r: i64)
    requires
        forall|k: int| 0 <= k < entries@.len() ==> entry_fits(entry_view(#[trigger] entries@[k]), y as int),
        entries@.len() <= i64::MAX,
        forall|p: Seq<(i64, i64)>| #[trigger] sorted_ranges(entries_view(entries@), y as int, p) ==> sweep_fits(p)
            && i64::MIN <= sweep(p, p.len()).1 - new_beacons(entries_view(entries@), y as int, entries@.len() as nat)
            <= i64::MAX,
    ensures
        exists|p: Seq<(i64, i64)>| #[trigger] sorted_ranges(entries_view(entries@), y as int, p) && r == sweep(
            p,
            p.len(),
        ).1 - new_beacons(entries_view(entries@), y as int, entries@.len() as nat),
{
    let ranges = get_ranges(entries, y);
    proof {
        assert(entries_view(entries@).len() == entries@.len());
        assert(sorted_ranges(entries_view(entries@), y as int, ranges@));
    }
    let total = sum_ranges(&ranges);
    let beacons = count_beacons(entries, y);
    total - beacons
}

/// What the lines say: the entry of each line, in order, or the failure of
/// the first line that does not parse.
pub open spec fn entries_spec(ls: Seq<Seq<char>>) -> Result<Seq<(int, int, int, int)>, Failure>
    decreases ls.len(),
{
    if ls.len() == 0 {
        Ok(Seq::empty())
    } else {
        match entries_spec(ls.drop_last()) {
            Err(f) => Err(f),
            Ok(v) => match entry_spec(ls.last()) {
                Err(f) => Err(f),
                Ok(e) => Ok(v.push(e)),
            },
        }
    }
}

proof fn lemma_entries_err_stays(ls: Seq<Seq<char>>, k: int, f: Failure)
    requires
        0 <= k <= ls.len(),
        entries_spec(ls.take(k)) == Err::<Seq<(int, int, int, int)>, Failure>(f),
    ensures
        entries_spec(ls) == Err::<Seq<(int, int, int, int)>, Failure>(f),
    decreases ls.len() - k,
{
    if k < ls.len() {
        assert(ls.take(k + 1).drop_last() =~= ls.take(k));
        lemma_entries_err_stays(ls, k + 1, f);
    } else {
        assert(ls.take(k) =~= ls);
    }
}

/// Trims the lines, skips blank ones and parses the others.
pub fn read_input(lines: &Vec<String>) -> (r: Result<Vec<Entry>, Error>)
    ensures
        entries_spec(nonblank(views_of(lines@))) matches Ok(v) ==> r matches Ok(w) && entries_view(w@) == v,
        entries_spec(nonblank(views_of(lines@))) matches Err(f) ==> r matches Err(e) && failure(e) == f,
{
    let ls = nonblank_lines(lines);
    let ghost v = nonblank(views_of(lines@));
    let mut out: Vec<Entry> = Vec::new();
    proof {
        assert(views_of(ls@) == v);
        assert(v.take(0) =~= Seq::<Seq<char>>::empty());
        assert(entries_view(out@) =~= Seq::<(int, int, int, int)>::empty());
    }
    let n = ls.len();
    for i in 0..n
        invariant
            n == ls@.len(),
            views_of(ls@) == v,
            v == nonblank(views_of(lines@)),
            v.len() == n,
            entries_spec(v.take(i as int)) == Ok::<Seq<(int, int, int, int)>, Failure>(entries_view(out@)),
    {
        proof {
            assert(v[i as int] == ls@[i as int]@);
            assert(v.take(i + 1).drop_last() =~= v.take(i as int));
            assert(v.take(i + 1).last() == v[i as int]);
        }
        match Entry::parse(ls[i].as_str()) {
            Ok(e) => {
                let ghost before = out@;
                out.push(e);
                proof {
                    assert(entries_view(out@) =~= entries_view(before).push(entry_view(e)));
                }
            },
            Err(e) => {
                proof {
                    assert(entries_spec(v.take(i + 1)) == Err::<Seq<(int, int, int, int)>, Failure>(failure(e)));
                    lemma_entries_err_stays(v, (i + 1) as int, failure(e));
                }
                return Err(e);
            },
        }
    }
    proof {
        assert(v.take(n as int) =~= v);
    }
    Ok(out)
}

} // verus!
