//! Point of incidence: each pattern of ash (`.`) and rocks (`#`) reflects
//! in a line between two rows or two columns; the second reading looks
//! for the line that one smudge away from being a mirror.
use vstd::prelude::*;
use crate::text::{chars_of, trimmed, trim, views_of};

verus! {

/// A pattern: each row and each column read as a binary number, `#` a
/// one and `.` a zero.
#[derive(Debug)]
pub struct Grid {
    pub rows: Vec<u64>,
    pub cols: Vec<u64>,
}

/// Why a pattern has no answer.
#[derive(Clone, Copy, Debug, PartialEq, Eq, Structural)]
pub enum MirrorError {
    /// A character is neither `.` nor `#`.
    BadChar,
    /// No row or column line reflects the pattern.
    NoMirror,
}

pub open spec fn bit(c: char) -> int {
    if c == '#' {
        1
    } else {
        0
    }
}

/// The binary number a line spells.
pub open spec fn bits_value(line: Seq<char>) -> int
    decreases line.len(),
{
    if line.len() == 0 {
        0
    } else {
        bits_value(line.drop_last()) * 2 + bit(line.last())
    }
}

/// The binary number column `c` spells, over the lines long enough to
/// reach it.
pub open spec fn col_value(lines: Seq<Seq<char>>, c: int) -> int
    decreases lines.len(),
{
    if lines.len() == 0 {
        0
    } else if c < lines.last().len() {
        col_value(lines.drop_last(), c) * 2 + bit(lines.last()[c])
    } else {
        col_value(lines.drop_last(), c)
    }
}

/// The length of the longest line.
pub open spec fn width(lines: Seq<Seq<char>>) -> int
    decreases lines.len(),
{
    if lines.len() == 0 {
        0
    } else if lines.last().len() > width(lines.drop_last()) {
        lines.last().len() as int
    } else {
        width(lines.drop_last())
    }
}

/// Every character is `.` or `#`.
pub open spec fn valid(lines: Seq<Seq<char>>) -> bool {
    forall|r: int, c: int| 0 <= r < lines.len() && 0 <= c < lines[r].len() ==> (#[trigger] lines[r][c] == '.' || lines[r][c]
        == '#')
}

/// Every row and column number fits in a `u64`.
pub open spec fn fits(lines: Seq<Seq<char>>) -> bool {
    &&& forall|r: int| 0 <= r < lines.len() ==> #[trigger] bits_value(lines[r]) <= u64::MAX
    &&& forall|c: int| 0 <= c < width(lines) ==> #[trigger] col_value(lines, c) <= u64::MAX
}

proof fn lemma_bits_prefix(line: Seq<char>, i: int)
    requires
        0 <= i <= line.len(),
    ensures
        0 <= bits_value(line.take(i)) <= bits_value(line),
    decreases line.len() - i,
{
    if i < line.len() {
        lemma_bits_prefix(line, i + 1);
        assert(line.take(i + 1).drop_last() =~= line.take(i));
    } else {
        assert(line.take(i) =~= line);
        lemma_bits_nonneg(line);
    }
}

proof fn lemma_bits_nonneg(line: Seq<char>)
    ensures
        0 <= bits_value(line),
    decreases line.len(),
{
    if line.len() > 0 {
        lemma_bits_nonneg(line.drop_last());
    }
}

proof fn lemma_col_prefix(lines: Seq<Seq<char>>, k: int, c: int)
    requires
        0 <= k <= lines.len(),
    ensures
        0 <= col_value(lines.take(k), c) <= col_value(lines, c),
    decreases lines.len() - k,
{
    if k < lines.len() {
        lemma_col_prefix(lines, k + 1, c);
        assert(lines.take(k + 1).drop_last() =~= lines.take(k));
    } else {
        assert(lines.take(k) =~= lines);
        lemma_col_nonneg(lines, c);
    }
}

proof fn lemma_col_nonneg(lines: Seq<Seq<char>>, c: int)
    ensures
        0 <= col_value(lines, c),
    decreases lines.len(),
{
    if lines.len() > 0 {
        lemma_col_nonneg(lines.drop_last(), c);
    }
}

proof fn lemma_width(lines: Seq<Seq<char>>)
    ensures
        forall|r: int| 0 <= r < lines.len() ==> #[trigger] lines[r].len() <= width(lines),
        width(lines) >= 0,
    decreases lines.len(),
{
    if lines.len() > 0 {
        lemma_width(lines.drop_last());
        assert forall|r: int| 0 <= r < lines.len() implies #[trigger] lines[r].len() <= width(lines) by {
            if r < lines.len() - 1 {
                assert(lines[r] == lines.drop_last()[r]);
            }
        }
    }
}

proof fn lemma_col_beyond(lines: Seq<Seq<char>>, c: int)
    requires
        c >= width(lines),
    ensures
        col_value(lines, c) == 0,
    decreases lines.len(),
{
    if lines.len() > 0 {
        lemma_col_beyond(lines.drop_last(), c);
    }
}

proof fn lemma_width_prefix(lines: Seq<Seq<char>>, k: int)
    requires
        0 <= k <= lines.len(),
    ensures
        width(lines.take(k)) <= width(lines),
    decreases lines.len() - k,
{
    if k < lines.len() {
        lemma_width_prefix(lines, k + 1);
        assert(lines.take(k + 1).drop_last() =~= lines.take(k));
    } else {
        assert(lines.take(k) =~= lines);
    }
}

impl Grid {
    /// Reads a pattern from its lines.
    pub fn from_text(text: &Vec<String>) -> (r: Result<Grid, MirrorError>)
        requires
            fits(views_of(text@)),
        ensures
            valid(views_of(text@)) <==> r is Ok,
            r is Err ==> r == Err::<Grid, MirrorError>(MirrorError::BadChar),
            r matches Ok(g) ==> {
                &&& g.rows@.len() == text@.len()
                &&& forall|k: int| 0 <= k < g.rows@.len() ==> #[trigger] g.rows@[k] == bits_value(text@[k]@)
                &&& g.cols@.len() == width(views_of(text@))
                &&& forall|c: int| 0 <= c < g.cols@.len() ==> #[trigger] g.cols@[c] == col_value(views_of(text@), c)
            },
    {
        let ghost lines = views_of(text@);
        proof {
            lemma_width(lines);
        }
        let mut rows: Vec<u64> = Vec::new();
        let mut cols: Vec<u64> = Vec::new();
        let mut k: usize = 0;
        while k < text.len()
            invariant
                lines == views_of(text@),
                fits(lines),
                k <= lines.len(),
                valid(lines.take(k as int)),
                rows@.len() == k,
                forall|j: int| 0 <= j < k ==> #[trigger] rows@[j] == bits_value(lines[j]),
                cols@.len() == width(lines.take(k as int)),
                forall|c: int| 0 <= c < cols@.len() ==> #[trigger] cols@[c] == col_value(lines.take(k as int), c),
            decreases lines.len() - k,
        {
            let cs = chars_of(text[k].as_str());
            let ghost line = lines[k as int];
            assert(cs@ == line);
            let ghost before = cols@;
            proof {
                lemma_width_prefix(lines, k as int);
                lemma_width_prefix(lines, k + 1);
                assert(lines.take(k + 1).drop_last() =~= lines.take(k as int));
                assert(lines.take(k + 1).last() == line);
                lemma_width(lines.take(k + 1));
            }
            let mut row: u64 = 0;
            let mut i: usize = 0;
            while i < cs.len()
                invariant
                    cs@ == line,
                    line == lines[k as int],
                    lines == views_of(text@),
                    fits(lines),
                    k < lines.len(),
                    i <= line.len(),
                    forall|j: int| 0 <= j < i ==> (#[trigger] line[j] == '.' || line[j] == '#'),
                    row == bits_value(line.take(i as int)),
                    before.len() == width(lines.take(k as int)),
                    forall|c: int| 0 <= c < before.len() ==> #[trigger] before[c] == col_value(lines.take(k as int), c),
                    cols@.len() == if i as int > before.len() { i as int } else { before.len() as int },
                    forall|c: int| 0 <= c < cols@.len() ==> #[trigger] cols@[c] == if c < i {
                        col_value(lines.take(k + 1), c)
                    } else {
                        col_value(lines.take(k as int), c)
                    },
                    lines.take(k + 1).drop_last() == lines.take(k as int),
                    lines.take(k + 1).last() == line,
                    line.len() <= width(lines.take(k + 1)),
                    width(lines.take(k + 1)) <= width(lines),
                decreases line.len() - i,
            {
                if i >= cols.len() {
                    proof {
                        lemma_col_beyond(lines.take(k as int), i as int);
                    }
                    cols.push(0);
                }
                let c = cs[i];
                let b: u64 = if c == '.' {
                    0
                } else if c == '#' {
                    1
                } else {
                    proof {
                        assert(lines[k as int][i as int] == c);
                    }
                    return Err(MirrorError::BadChar);
                };
                proof {
                    assert(line.take(i + 1).drop_last() =~= line.take(i as int));
                    lemma_bits_prefix(line, i + 1);
                    lemma_col_prefix(lines, k + 1, i as int);
                    assert(bits_value(lines[k as int]) <= u64::MAX);
                    assert(col_value(lines, i as int) <= u64::MAX);
                }
                row = row * 2 + b;
                let cv = cols[i];
                cols.set(i, cv * 2 + b);
                i = i + 1;
            }
            assert(line.take(i as int) =~= line);
            rows.push(row);
            proof {
                assert forall|c: int| 0 <= c < cols@.len() implies #[trigger] cols@[c] == col_value(lines.take(k + 1), c) by {
                    if c >= line.len() {
                        assert(col_value(lines.take(k + 1), c) == col_value(lines.take(k as int), c));
                    }
                }
                assert forall|r: int, c: int| 0 <= r < lines.take(k + 1).len() && 0 <= c < lines.take(k + 1)[r].len() implies (
                #[trigger] lines.take(k + 1)[r][c] == '.' || lines.take(k + 1)[r][c] == '#') by {
                    if r < k {
                        assert(lines.take(k + 1)[r] == lines.take(k as int)[r]);
                    }
                }
            }
            k = k + 1;
        }
        assert(lines.take(k as int) =~= lines);
        Ok(Grid { rows, cols })
    }
}

/// Whether the pattern's row and column numbers fit in a `u64`.
pub fn fits_u64(text: &Vec<String>) -> (r: bool)
    ensures
        r == fits(views_of(text@)),
{
    let ghost lines = views_of(text@);
    proof {
        lemma_width(lines);
    }
    let mut k: usize = 0;
    let mut w: usize = 0;
    while k < text.len()
        invariant
            lines == views_of(text@),
            k <= lines.len(),
            forall|r: int| 0 <= r < k ==> #[trigger] bits_value(lines[r]) <= u64::MAX,
            w == width(lines.take(k as int)),
        decreases lines.len() - k,
    {
        let cs = chars_of(text[k].as_str());
        let mut v: u64 = 0;
        let mut i: usize = 0;
        while i < cs.len()
            invariant
                lines == views_of(text@),
                k < lines.len(),
                cs@ == lines[k as int],
                i <= cs@.len(),
                v == bits_value(cs@.take(i as int)),
            decreases cs@.len() - i,
        {
            assert(cs@.take(i + 1).drop_last() =~= cs@.take(i as int));
            let b: u64 = if cs[i] == '#' { 1 } else { 0 };
            let nv: u128 = (v as u128) * 2 + (b as u128);
            if nv > u64::MAX as u128 {
                proof {
                    lemma_bits_prefix(cs@, i + 1);
                    assert(bits_value(lines[k as int]) > u64::MAX);
                }
                return false;
            }
            v = nv as u64;
            i = i + 1;
        }
        assert(cs@.take(i as int) =~= cs@);
        assert(lines.take(k + 1).drop_last() =~= lines.take(k as int));
        if cs.len() > w {
            w = cs.len();
        }
        k = k + 1;
    }
    assert(lines.take(k as int) =~= lines);
    let mut c: usize = 0;
    while c < w
        invariant
            lines == views_of(text@),
            w == width(lines),
            c <= w,
            forall|r: int| 0 <= r < lines.len() ==> #[trigger] bits_value(lines[r]) <= u64::MAX,
            forall|j: int| 0 <= j < c ==> #[trigger] col_value(lines, j) <= u64::MAX,
        decreases w - c,
    {
        let mut v: u64 = 0;
        let mut k: usize = 0;
        while k < text.len()
            invariant
                lines == views_of(text@),
                w == width(lines),
                c < w,
                k <= lines.len(),
                v == col_value(lines.take(k as int), c as int),
            decreases lines.len() - k,
        {
            assert(lines.take(k + 1).drop_last() =~= lines.take(k as int));
            let cs = chars_of(text[k].as_str());
            assert(cs@ == lines[k as int]);
            if c < cs.len() {
                let b: u64 = if cs[c] == '#' { 1 } else { 0 };
                let nv: u128 = (v as u128) * 2 + (b as u128);
                if nv > u64::MAX as u128 {
                    proof {
                        lemma_col_prefix(lines, k + 1, c as int);
                        assert(col_value(lines, c as int) > u64::MAX);
                    }
                    return false;
                }
                v = nv as u64;
            }
            k = k + 1;
        }
        assert(lines.take(k as int) =~= lines);
        c = c + 1;
    }
    true
}

/// Line `s` (between items `s - 1` and `s`) reflects every pair of items
/// the same distance from it.
pub open spec fn reflects(v: Seq<u64>, s: int) -> bool {
    forall|i: int| 0 <= i && 0 <= s - 1 - i && s + i < v.len() ==> #[trigger] v[s - 1 - i] == v[s + i]
}

/// The number of one bits of `x`.
pub open spec fn ones(x: int) -> int
    decreases x,
{
    if x <= 0 {
        0
    } else {
        x % 2 + ones(x / 2)
    }
}

/// The bits that differ across line `s`, over the first `i` pairs.
pub open spec fn smudges(v: Seq<u64>, s: int, i: int) -> int
    decreases i,
{
    if i <= 0 {
        0
    } else if s - i < 0 || s + i - 1 >= v.len() {
        smudges(v, s, i - 1)
    } else {
        smudges(v, s, i - 1) + ones((v[s - i] ^ v[s + i - 1]) as int)
    }
}

/// The number of pairs across line `s`.
pub open spec fn reach(v: Seq<u64>, s: int) -> int {
    if s < v.len() - s {
        s
    } else {
        v.len() - s
    }
}

/// The first line, from `s` on, that satisfies the reading (`smudge`: exactly
/// one bit differs; otherwise: all pairs equal).
pub open spec fn first_line(v: Seq<u64>, s: int, smudge: bool) -> Option<usize>
    decreases v.len() - s,
{
    if s < 1 || s >= v.len() {
        None
    } else if (if smudge { smudges(v, s, reach(v, s)) == 1 } else { reflects(v, s) }) {
        Some(s as usize)
    } else {
        first_line(v, s + 1, smudge)
    }
}

/// The number of one bits of `x`.
fn count_ones(x: u64) -> (r: u32)
    ensures
        r == ones(x as int),
        r <= 64,
{
    let mut y = x;
    let mut c: u32 = 0;
    let ghost mut steps: int = 0;
    while y > 0
        invariant
            c + ones(y as int) == ones(x as int),
            c <= steps,
            y as int * pow2(steps) <= x,
            steps <= 64,
        decreases y,
    {
        proof {
            lemma_pow2_double(steps);
            assert(y >= 1);
            assert(pow2(steps) * 2 <= y * pow2(steps) * 2) by (nonlinear_arith)
                requires
                    y >= 1,
                    pow2(steps) >= 1;
            assert(pow2(steps + 1) <= x * 2);
            if steps >= 64 {
                lemma_pow2_grows(64, steps);
                assert(pow2(64) == 0x1_0000_0000_0000_0000) by {
                    lemma_pow2_64();
                }
            }
        }
        c = c + (y % 2) as u32;
        proof {
            assert((y / 2) as int * pow2(steps + 1) <= x) by (nonlinear_arith)
                requires
                    y as int * pow2(steps) <= x,
                    pow2(steps + 1) == pow2(steps) * 2,
                    pow2(steps) >= 1;
        }
        y = y / 2;
        proof {
            steps = steps + 1;
        }
    }
    c
}

pub open spec fn pow2(n: int) -> int
    decreases n,
{
    if n <= 0 {
        1
    } else {
        2 * pow2(n - 1)
    }
}

proof fn lemma_pow2_double(n: int)
    requires
        n >= 0,
    ensures
        pow2(n + 1) == pow2(n) * 2,
        pow2(n) >= 1,
    decreases n,
{
    if n > 0 {
        lemma_pow2_double(n - 1);
    }
}

proof fn lemma_pow2_grows(a: int, b: int)
    requires
        0 <= a <= b,
    ensures
        pow2(a) <= pow2(b),
    decreases b - a,
{
    if a < b {
        lemma_pow2_grows(a, b - 1);
        lemma_pow2_double(b - 1);
    }
}

proof fn lemma_pow2_64()
    ensures
        pow2(64) == 0x1_0000_0000_0000_0000,
{
    reveal_with_fuel(pow2, 65);
}

/// The first line between two items that reflects all of them.
pub fn find_mirror1(v: &Vec<u64>) -> (r: Option<usize>)
    ensures
        r == first_line(v@, 1, false),
{
    let n = v.len();
    let mut split: usize = 1;
    while split < n
        invariant
            n == v@.len(),
            1 <= split,
            first_line(v@, 1, false) == first_line(v@, split as int, false),
        decreases n - split,
    {
        let mut same = true;
        let mut i: usize = 0;
        while i < split && i < n - split && same
            invariant
                n == v@.len(),
                1 <= split < n,
                i <= split,
                i <= n - split,
                same ==> forall|j: int| 0 <= j < i ==> #[trigger] v@[split - 1 - j] == v@[split + j],
                !same ==> !reflects(v@, split as int),
            decreases split - i + if same { 1int } else { 0int },
        {
            if v[split - 1 - i] != v[split + i] {
                same = false;
                assert(v@[split - 1 - i] != v@[split + i]);
            } else {
                i = i + 1;
            }
        }
        if same {
            assert(reflects(v@, split as int)) by {
                assert forall|j: int| 0 <= j && 0 <= split - 1 - j && split + j < v@.len() implies #[trigger] v@[split - 1 - j] == v@[split + j] by {
                    assert(j < i);
                }
            }
            return Some(split);
        }
        split = split + 1;
    }
    None
}

proof fn lemma_smudges_grow(v: Seq<u64>, s: int, i: int, m: int)
    requires
        0 <= i <= m,
    ensures
        smudges(v, s, i) <= smudges(v, s, m),
        0 <= smudges(v, s, i),
    decreases m - i,
{
    if i < m {
        lemma_smudges_grow(v, s, i, m - 1);
        if !(s - m < 0 || s + m - 1 >= v.len()) {
            lemma_ones_nonneg((v[s - m] ^ v[s + m - 1]) as int);
        }
    } else {
        lemma_smudges_nonneg(v, s, i);
    }
}

proof fn lemma_smudges_nonneg(v: Seq<u64>, s: int, i: int)
    ensures
        0 <= smudges(v, s, i),
    decreases i,
{
    if i > 0 {
        lemma_smudges_nonneg(v, s, i - 1);
        if !(s - i < 0 || s + i - 1 >= v.len()) {
            lemma_ones_nonneg((v[s - i] ^ v[s + i - 1]) as int);
        }
    }
}

proof fn lemma_smudges_beyond(v: Seq<u64>, s: int, m: int)
    requires
        m == reach(v, s),
        1 <= s < v.len(),
    ensures
        smudges(v, s, m) == smudges(v, s, reach(v, s)),
{
}

proof fn lemma_ones_nonneg(x: int)
    ensures
        0 <= ones(x),
    decreases x,
{
    if x > 0 {
        lemma_ones_nonneg(x / 2);
    }
}

/// The first line between two items where exactly one bit differs across
/// all the pairs.
pub fn find_mirror2(v: &Vec<u64>) -> (r: Option<usize>)
    ensures
        r == first_line(v@, 1, true),
{
    let n = v.len();
    let mut split: usize = 1;
    while split < n
        invariant
            n == v@.len(),
            1 <= split,
            first_line(v@, 1, true) == first_line(v@, split as int, true),
        decreases n - split,
    {
        let mut bits_wrong: u32 = 0;
        let mut i: usize = 0;
        while i < split && i < n - split && bits_wrong <= 1
            invariant
                n == v@.len(),
                1 <= split < n,
                i <= split,
                i <= n - split,
                bits_wrong == smudges(v@, split as int, i as int),
                bits_wrong <= 65,
            decreases split - i,
        {
            let c = count_ones(v[split - 1 - i] ^ v[split + i]);
            assert(smudges(v@, split as int, i + 1) == smudges(v@, split as int, i as int) + ones(
                (v@[split - (i + 1)] ^ v@[split + (i + 1) - 1]) as int,
            ));
            bits_wrong = bits_wrong + c;
            i = i + 1;
        }
        proof {
            let m = reach(v@, split as int);
            if bits_wrong > 1 {
                lemma_smudges_grow(v@, split as int, i as int, m);
            } else {
                assert(i as int == m);
            }
            lemma_smudges_beyond(v@, split as int, m);
        }
        if bits_wrong == 1 {
            return Some(split);
        }
        split = split + 1;
    }
    None
}

/// The first mirror line under the given reading.
pub fn find_mirror(v: &Vec<u64>, part2: bool) -> (r: Option<usize>)
    ensures
        r == first_line(v@, 1, part2),
{
    if part2 {
        find_mirror2(v)
    } else {
        find_mirror1(v)
    }
}

/// The pattern's note: a hundred times the rows above a row mirror, or
/// else the columns left of a column mirror.
pub open spec fn note(g: Grid, part2: bool) -> Result<int, MirrorError> {
    match first_line(g.rows@, 1, part2) {
        Some(n) => Ok(100 * n),
        None => match first_line(g.cols@, 1, part2) {
            Some(n) => Ok(n as int),
            None => Err(MirrorError::NoMirror),
        },
    }
}

impl Grid {
    /// The pattern's note; `NoMirror` when it has no mirror line.
    pub fn find_mirror(&self, part2: bool) -> (r: Result<usize, MirrorError>)
        requires
            self.rows@.len() <= usize::MAX / 100,
        ensures
            r matches Ok(n) ==> note(*self, part2) == Ok::<int, MirrorError>(n as int),
            r matches Err(e) ==> note(*self, part2) == Err::<int, MirrorError>(e),
    {
        proof {
            lemma_first_line_range(self.rows@, 1, part2);
        }
        if let Some(n) = find_mirror(&self.rows, part2) {
            Ok(100 * n)
        } else if let Some(n) = find_mirror(&self.cols, part2) {
            Ok(n)
        } else {
            Err(MirrorError::NoMirror)
        }
    }
}

proof fn lemma_first_line_range(v: Seq<u64>, s: int, smudge: bool)
    ensures
        first_line(v, s, smudge) matches Some(n) ==> n < v.len(),
    decreases v.len() - s,
{
    if 1 <= s < v.len() {
        lemma_first_line_range(v, s + 1, smudge);
    }
}

/// The patterns the lines hold, split at blank lines, each line trimmed:
/// the patterns finished so far, and the one being read.
pub open spec fn patterns_scan(lines: Seq<Seq<char>>) -> (Seq<Seq<Seq<char>>>, Seq<Seq<char>>)
    decreases lines.len(),
{
    if lines.len() == 0 {
        (Seq::empty(), Seq::empty())
    } else {
        let (done, cur) = patterns_scan(lines.drop_last());
        let t = trimmed(lines.last());
        if t.len() == 0 {
            if cur.len() > 0 {
                (done.push(cur), Seq::empty())
            } else {
                (done, cur)
            }
        } else {
            (done, cur.push(t))
        }
    }
}

/// The patterns the lines hold, split at blank lines.
pub open spec fn patterns(lines: Seq<Seq<char>>) -> Seq<Seq<Seq<char>>> {
    let (done, cur) = patterns_scan(lines);
    if cur.len() > 0 {
        done.push(cur)
    } else {
        done
    }
}

/// Every pattern's numbers fit in a `u64`.
pub open spec fn all_fit(lines: Seq<Seq<char>>) -> bool {
    forall|k: int| 0 <= k < patterns(lines).len() ==> #[trigger] fits(patterns(lines)[k])
}

/// Splits the lines into patterns at blank lines, each line trimmed.
pub fn split_patterns(lines: &Vec<String>) -> (r: Vec<Vec<String>>)
    ensures
        r@.len() == patterns(views_of(lines@)).len(),
        forall|k: int| 0 <= k < r@.len() ==> views_of(#[trigger] r@[k]@) == patterns(views_of(lines@))[k],
{
    let ghost all = views_of(lines@);
    let mut out: Vec<Vec<String>> = Vec::new();
    let mut cur: Vec<String> = Vec::new();
    let mut i: usize = 0;
    while i < lines.len()
        invariant
            all == views_of(lines@),
            i <= all.len(),
            out@.len() == patterns_scan(all.take(i as int)).0.len(),
            forall|k: int| 0 <= k < out@.len() ==> views_of(#[trigger] out@[k]@) == patterns_scan(all.take(i as int)).0[k],
            views_of(cur@) == patterns_scan(all.take(i as int)).1,
        decreases all.len() - i,
    {
        assert(all.take(i + 1).drop_last() =~= all.take(i as int));
        assert(all.take(i + 1).last() == lines@[i as int]@);
        let t = trim(lines[i].as_str());
        if t.unicode_len() == 0 {
            if cur.len() > 0 {
                let ghost before = out@;
                let mut done: Vec<String> = Vec::new();
                std::mem::swap(&mut done, &mut cur);
                out.push(done);
                assert(views_of(cur@) =~= Seq::<Seq<char>>::empty());
                assert forall|k: int| 0 <= k < out@.len() implies views_of(#[trigger] out@[k]@) == patterns_scan(all.take(i + 1)).0[k] by {
                    if k < before.len() {
                        assert(out@[k] == before[k]);
                    }
                }
            }
        } else {
            let ghost before = cur@;
            cur.push(t.to_string());
            assert(views_of(cur@) =~= views_of(before).push(t@));
        }
        i = i + 1;
    }
    assert(all.take(i as int) =~= all);
    if cur.len() > 0 {
        let ghost before = out@;
        out.push(cur);
        assert forall|k: int| 0 <= k < out@.len() implies views_of(#[trigger] out@[k]@) == patterns(all)[k] by {
            if k < before.len() {
                assert(out@[k] == before[k]);
            }
        }
    }
    out
}

/// Whether every pattern's numbers fit in a `u64`.
pub fn all_fit_u64(lines: &Vec<String>) -> (r: bool)
    ensures
        r == all_fit(views_of(lines@)),
{
    let groups = split_patterns(lines);
    let mut k: usize = 0;
    while k < groups.len()
        invariant
            groups@.len() == patterns(views_of(lines@)).len(),
            forall|j: int| 0 <= j < groups@.len() ==> views_of(#[trigger] groups@[j]@) == patterns(views_of(lines@))[j],
            k <= groups@.len(),
            forall|j: int| 0 <= j < k ==> #[trigger] fits(patterns(views_of(lines@))[j]),
        decreases groups@.len() - k,
    {
        if !fits_u64(&groups[k]) {
            assert(views_of(groups@[k as int]@) == patterns(views_of(lines@))[k as int]);
            return false;
        }
        k = k + 1;
    }
    true
}

/// Reads the patterns; `BadChar` for the first one with a character that
/// is neither `.` nor `#`.
pub fn read_input(lines: &Vec<String>) -> (r: Result<Vec<Grid>, MirrorError>)
    requires
        all_fit(views_of(lines@)),
    ensures
        r is Err <==> exists|k: int| 0 <= k < patterns(views_of(lines@)).len() && !valid(#[trigger] patterns(views_of(lines@))[k]),
        r is Err ==> r == Err::<Vec<Grid>, MirrorError>(MirrorError::BadChar),
        r matches Ok(gs) ==> gs@.len() == patterns(views_of(lines@)).len() && forall|k: int| 0 <= k < gs@.len() ==> {
            let p = patterns(views_of(lines@))[k];
            &&& (#[trigger] gs@[k]).rows@.len() == p.len()
            &&& forall|j: int| 0 <= j < p.len() ==> #[trigger] gs@[k].rows@[j] == bits_value(p[j])
            &&& gs@[k].cols@.len() == width(p)
            &&& forall|c: int| 0 <= c < width(p) ==> #[trigger] gs@[k].cols@[c] == col_value(p, c)
        },
{
    let groups = split_patterns(lines);
    let ghost ps = patterns(views_of(lines@));
    let mut grids: Vec<Grid> = Vec::new();
    let mut k: usize = 0;
    while k < groups.len()
        invariant
            ps == patterns(views_of(lines@)),
            all_fit(views_of(lines@)),
            groups@.len() == ps.len(),
            forall|j: int| 0 <= j < groups@.len() ==> views_of(#[trigger] groups@[j]@) == ps[j],
            k <= groups@.len(),
            grids@.len() == k,
            forall|j: int| 0 <= j < k ==> valid(#[trigger] ps[j]),
            forall|j: int| 0 <= j < k ==> {
                let p = ps[j];
                &&& (#[trigger] grids@[j]).rows@.len() == p.len()
                &&& forall|i: int| 0 <= i < p.len() ==> #[trigger] grids@[j].rows@[i] == bits_value(p[i])
                &&& grids@[j].cols@.len() == width(p)
                &&& forall|c: int| 0 <= c < width(p) ==> #[trigger] grids@[j].cols@[c] == col_value(p, c)
            },
        decreases groups@.len() - k,
    {
        assert(views_of(groups@[k as int]@) == ps[k as int]);
        assert(fits(ps[k as int]));
        match Grid::from_text(&groups[k]) {
            Err(e) => {
                return Err(e);
            },
            Ok(g) => {
                proof {
                    assert forall|i: int| 0 <= i < ps[k as int].len() implies #[trigger] g.rows@[i] == bits_value(ps[k as int][i]) by {
                        assert(groups@[k as int]@[i]@ == views_of(groups@[k as int]@)[i]);
                    }
                }
                grids.push(g);
            },
        }
        k = k + 1;
    }
    Ok(grids)
}

/// The sum of the patterns' notes, or the first pattern's error.
pub open spec fn notes_sum(gs: Seq<Grid>, part2: bool) -> Result<int, MirrorError>
    decreases gs.len(),
{
    if gs.len() == 0 {
        Ok(0)
    } else {
        match notes_sum(gs.drop_last(), part2) {
            Err(e) => Err(e),
            Ok(t) => match note(gs.last(), part2) {
                Err(e) => Err(e),
                Ok(n) => Ok(t + n),
            },
        }
    }
}

proof fn lemma_notes_sum_prefix(gs: Seq<Grid>, part2: bool, k: int)
    requires
        0 <= k <= gs.len(),
    ensures
        notes_sum(gs.take(k), part2) is Err ==> notes_sum(gs, part2) == notes_sum(gs.take(k), part2),
        notes_sum(gs.take(k), part2) matches Ok(a) ==> (notes_sum(gs, part2) matches Ok(b) ==> 0 <= a <= b),
    decreases gs.len() - k,
{
    if k < gs.len() {
        lemma_notes_sum_prefix(gs, part2, k + 1);
        assert(gs.take(k + 1).drop_last() =~= gs.take(k));
        assert(gs.take(k + 1).last() == gs[k]);
        lemma_note_nonneg(gs[k], part2);
        lemma_notes_sum_nonneg(gs.take(k), part2);
    } else {
        assert(gs.take(k) =~= gs);
        lemma_notes_sum_nonneg(gs, part2);
    }
}

proof fn lemma_note_nonneg(g: Grid, part2: bool)
    ensures
        note(g, part2) matches Ok(n) ==> n >= 0,
{
}

proof fn lemma_notes_sum_nonneg(gs: Seq<Grid>, part2: bool)
    ensures
        notes_sum(gs, part2) matches Ok(t) ==> t >= 0,
    decreases gs.len(),
{
    if gs.len() > 0 {
        lemma_notes_sum_nonneg(gs.drop_last(), part2);
    }
}

/// The sum of the notes of all patterns under one reading; the first
/// pattern's error when one has no mirror line.
pub fn total_notes(grids: &Vec<Grid>, part2: bool) -> (r: Result<usize, MirrorError>)
    requires
        forall|k: int| 0 <= k < grids@.len() ==> (#[trigger] grids@[k]).rows@.len() <= usize::MAX / 100,
        forall|k: int| 0 <= k <= grids@.len() ==> (#[trigger] notes_sum(grids@.take(k), part2) matches Ok(t) ==> t <= usize::MAX),
    ensures
        r matches Ok(t) ==> notes_sum(grids@, part2) == Ok::<int, MirrorError>(t as int),
        r matches Err(e) ==> notes_sum(grids@, part2) == Err::<int, MirrorError>(e),
{
    let mut total: usize = 0;
    let mut k: usize = 0;
    while k < grids.len()
        invariant
            k <= grids@.len(),
            forall|j: int| 0 <= j < grids@.len() ==> (#[trigger] grids@[j]).rows@.len() <= usize::MAX / 100,
            forall|j: int| 0 <= j <= grids@.len() ==> (#[trigger] notes_sum(grids@.take(j), part2) matches Ok(t) ==> t <= usize::MAX),
            notes_sum(grids@.take(k as int), part2) == Ok::<int, MirrorError>(total as int),
        decreases grids@.len() - k,
    {
        assert(grids@.take(k + 1).drop_last() =~= grids@.take(k as int));
        assert(grids@.take(k + 1).last() == grids@[k as int]);
        match grids[k].find_mirror(part2) {
            Err(e) => {
                proof {
                    lemma_notes_sum_prefix(grids@, part2, k + 1);
                }
                return Err(e);
            },
            Ok(n) => {
                assert(notes_sum(grids@.take(k + 1), part2) matches Ok(t) ==> t <= usize::MAX);
                total = total + n;
            },
        }
        k = k + 1;
    }
    assert(grids@.take(k as int) =~= grids@);
    Ok(total)
}

} // verus!
