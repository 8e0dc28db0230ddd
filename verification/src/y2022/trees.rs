//! Treetop tree house: which trees of a height grid are visible from outside.
use vstd::prelude::*;
use crate::common::string_views;

verus! {

/// Errors of this puzzle.
pub enum Error {
    /// A row's length differs from the first row's.
    InvalidRowLength { got: usize, expected: usize },
    /// There are no rows.
    Empty,
}

/// The heights that a line's bytes stand for: each byte minus `'0'`.
pub open spec fn row_of(bytes: Seq<u8>) -> Seq<u32> {
    bytes.map_values(|b: u8| (b - 48) as u32)
}

/// The rows of the non-blank lines among the first `n`.
pub open spec fn rows_of(lines: Seq<String>, n: nat) -> Seq<Seq<u32>>
    decreases n,
{
    if n == 0 {
        Seq::empty()
    } else if lines[n - 1]@.len() == 0 {
        rows_of(lines, (n - 1) as nat)
    } else {
        rows_of(lines, (n - 1) as nat).push(row_of(vstd::utf8::encode_utf8(lines[n - 1]@)))
    }
}

/// Every byte of `s` is at least `'0'`.
pub open spec fn bytes_ok(s: Seq<u8>) -> bool {
    forall|j: int| 0 <= j < s.len() ==> s[j] >= 48
}

/// The grid of heights: one row per non-blank line, each byte minus `'0'`.
/// Fails when a row's length differs from the first row's, or when there is
/// no row.
pub fn read_heights(lines: &Vec<String>) -> (r: Result<Vec<Vec<u32>>, Error>)
    requires
        forall|k: int| 0 <= k < lines@.len() ==> bytes_ok(#[trigger] vstd::utf8::encode_utf8(lines@[k]@)),
    ensures
        r matches Ok(rows) ==> rows@.len() > 0 && rows@.map_values(|row: Vec<u32>| row@) == rows_of(lines@, lines@.len())
            && forall|k: int| 0 <= k < rows@.len() ==> (#[trigger] rows@[k])@.len() == rows@[0]@.len(),
        r matches Err(Error::Empty) ==> rows_of(lines@, lines@.len()).len() == 0,
        r matches Err(Error::InvalidRowLength { .. }) ==> exists|k: int| 0 <= k < rows_of(lines@, lines@.len()).len()
            && (#[trigger] rows_of(lines@, lines@.len())[k]).len() != rows_of(lines@, lines@.len())[0].len(),
        (rows_of(lines@, lines@.len()).len() > 0 && forall|k: int| 0 <= k < rows_of(lines@, lines@.len()).len()
            ==> (#[trigger] rows_of(lines@, lines@.len())[k]).len() == rows_of(lines@, lines@.len())[0].len()) ==> r is Ok,
{
    let mut data: Vec<Vec<u32>> = Vec::new();
    let mut width: Option<usize> = None;
    let n = lines.len();
    for i in 0..n
        invariant
            n == lines@.len(),
            forall|k: int| 0 <= k < lines@.len() ==> bytes_ok(#[trigger] vstd::utf8::encode_utf8(lines@[k]@)),
            data@.map_values(|row: Vec<u32>| row@) == rows_of(lines@, i as nat),
            width is None <==> data@.len() == 0,
            width matches Some(w) ==> forall|k: int| 0 <= k < data@.len() ==> (#[trigger] data@[k])@.len() == w,
    {
        let line = lines[i].as_str();
        if line.unicode_len() != 0 {
            let bytes = line.as_bytes();
            let m = bytes.len();
            let mut row: Vec<u32> = Vec::new();
            proof {
                assert(bytes_ok(vstd::utf8::encode_utf8(lines@[i as int]@)));
            }
            for j in 0..m
                invariant
                    m == bytes@.len(),
                    bytes_ok(bytes@),
                    row@ == row_of(bytes@.take(j as int)),
            {
                proof {
                    assert(bytes@[j as int] >= 48);
                }
                row.push((bytes[j] as u32) - ('0' as u32));
                proof {
                    assert(row@ =~= row_of(bytes@.take(j + 1)));
                }
            }
            proof {
                assert(bytes@.take(m as int) =~= bytes@);
            }
            match width {
                Some(w) => {
                    if row.len() != w {
                        proof {
                            let rs = rows_of(lines@, n as nat);
                            lemma_rows_prefix(lines@, (i + 1) as nat, n as nat);
                            let views = data@.map_values(|row: Vec<u32>| row@);
                            assert(lines@[i as int]@ == line@);
                            assert(rows_of(lines@, (i + 1) as nat) == rows_of(lines@, i as nat).push(row@));
                            assert(rows_of(lines@, (i + 1) as nat)[0] == rs[0]);
                            assert(rows_of(lines@, (i + 1) as nat)[data@.len() as int] == rs[data@.len() as int]);
                            assert(views[0] == data@[0]@);
                            assert(rs[0] == views[0]);
                            assert(rs[data@.len() as int] == row@);
                        }
                        return Err(Error::InvalidRowLength { got: row.len(), expected: w });
                    }
                },
                None => {
                    width = Some(row.len());
                },
            }
            data.push(row);
            proof {
                assert(data@.map_values(|row: Vec<u32>| row@) =~= rows_of(lines@, (i + 1) as nat));
            }
        } else {
            proof {
                assert(rows_of(lines@, (i + 1) as nat) == rows_of(lines@, i as nat));
            }
        }
    }
    if data.len() == 0 {
        return Err(Error::Empty);
    }
    proof {
        let views = data@.map_values(|row: Vec<u32>| row@);
        assert forall|k: int| 0 <= k < data@.len() implies (#[trigger] data@[k])@.len() == data@[0]@.len() by {}
        assert(views.len() == data@.len());
        assert forall|k: int| 0 <= k < views.len() implies #[trigger] views[k] == data@[k]@ by {}
    }
    Ok(data)
}

/// The rows of the first `m` lines are a prefix of those of the first `n`.
proof fn lemma_rows_prefix(lines: Seq<String>, m: nat, n: nat)
    requires
        m <= n <= lines.len(),
    ensures
        rows_of(lines, m).len() <= rows_of(lines, n).len(),
        forall|k: int| 0 <= k < rows_of(lines, m).len() ==> #[trigger] rows_of(lines, m)[k] == rows_of(lines, n)[k],
    decreases n - m,
{
    if m < n {
        lemma_rows_prefix(lines, m, (n - 1) as nat);
    }
}

/// The tree at `(i, j)` is visible from the left, the right, the top or the
/// bottom: every tree between it and that edge is strictly shorter.
pub open spec fn visible(data: Seq<Seq<u32>>, w: int, i: int, j: int) -> bool {
    let h = data[i][j];
    ||| forall|k: int| 0 <= k < j ==> #[trigger] data[i][k] < h
    ||| forall|k: int| j < k < w ==> #[trigger] data[i][k] < h
    ||| forall|k: int| 0 <= k < i ==> #[trigger] data[k][j] < h
    ||| forall|k: int| i < k < data.len() ==> #[trigger] data[k][j] < h
}

/// The grid is non-empty and every row is at least as long as the first.
pub open spec fn grid_ok(data: Seq<Seq<u32>>) -> bool {
    data.len() > 0 && forall|k: int| 0 <= k < data.len() ==> (#[trigger] data[k]).len() >= data[0].len()
}

/// The views of the rows.
pub open spec fn grid_view(data: Seq<Vec<u32>>) -> Seq<Seq<u32>> {
    data.map_values(|row: Vec<u32>| row@)
}

/// For each position of the grid (as wide as its first row), whether the
/// tree there is visible from outside.
pub fn compute_visible(data: &Vec<Vec<u32>>) -> (r: Vec<Vec<bool>>)
    requires
        grid_ok(grid_view(data@)),
    ensures
        r@.len() == data@.len(),
        forall|i: int| 0 <= i < r@.len() ==> (#[trigger] r@[i])@.len() == data@[0]@.len(),
        forall|i: int, j: int| 0 <= i < r@.len() && 0 <= j < data@[0]@.len() ==> #[trigger] r@[i]@[j]
            == visible(grid_view(data@), data@[0]@.len() as int, i, j),
{
    let ghost g = grid_view(data@);
    let height = data.len();
    let width = data[0].len();
    proof {
        assert forall|k: int| 0 <= k < height implies (#[trigger] data@[k])@.len() >= width by {
            assert(g[k] == data@[k]@);
        }
    }
    let mut result: Vec<Vec<bool>> = Vec::new();
    for i in 0..height
        invariant
            height == data@.len(),
            width == data@[0]@.len(),
            g == grid_view(data@),
            forall|k: int| 0 <= k < height ==> (#[trigger] data@[k])@.len() >= width,
            result@.len() == i,
            forall|a: int| 0 <= a < i ==> (#[trigger] result@[a])@.len() == width,
            forall|a: int, b: int| 0 <= a < i && 0 <= b < width ==> #[trigger] result@[a]@[b]
                == visible(g, width as int, a, b),
    {
        let mut row: Vec<bool> = Vec::new();
        for j in 0..width
            invariant
                height == data@.len(),
                width == data@[0]@.len(),
                i < height,
                g == grid_view(data@),
                forall|k: int| 0 <= k < height ==> (#[trigger] data@[k])@.len() >= width,
                row@.len() == j,
                forall|b: int| 0 <= b < j ==> #[trigger] row@[b] == visible(g, width as int, i as int, b),
        {
            proof {
                assert forall|a: int, b: int| 0 <= a < height && 0 <= b < width implies #[trigger] g[a][b]
                    == data@[a]@[b] by {}
            }
            let h = data[i][j];
            let mut vis = true;
            let mut k: usize = 0;
            while k < j
                invariant
                    k <= j,
                    j < width,
                    i < height,
                    height == data@.len(),
                    forall|kk: int| 0 <= kk < height ==> (#[trigger] data@[kk])@.len() >= width,
                    h == data@[i as int]@[j as int],
                    vis == forall|kk: int| 0 <= kk < k ==> #[trigger] data@[i as int]@[kk] < h,
                decreases j - k,
            {
                if data[i][k] >= h {
                    vis = false;
                }
                k = k + 1;
            }
            let left = vis;
            let mut vis = true;
            let mut k: usize = j + 1;
            while k < width
                invariant
                    j < k <= width,
                    i < height,
                    height == data@.len(),
                    forall|kk: int| 0 <= kk < height ==> (#[trigger] data@[kk])@.len() >= width,
                    h == data@[i as int]@[j as int],
                    vis == forall|kk: int| j < kk < k ==> #[trigger] data@[i as int]@[kk] < h,
                decreases width - k,
            {
                if data[i][k] >= h {
                    vis = false;
                }
                k = k + 1;
            }
            let right = vis;
            let mut vis = true;
            let mut k: usize = 0;
            while k < i
                invariant
                    k <= i,
                    i < height,
                    j < width,
                    height == data@.len(),
                    forall|kk: int| 0 <= kk < height ==> (#[trigger] data@[kk])@.len() >= width,
                    h == data@[i as int]@[j as int],
                    vis == forall|kk: int| 0 <= kk < k ==> #[trigger] data@[kk]@[j as int] < h,
                decreases i - k,
            {
                if data[k][j] >= h {
                    vis = false;
                }
                k = k + 1;
            }
            let top = vis;
            let mut vis = true;
            let mut k: usize = i + 1;
            while k < height
                invariant
                    i < k <= height,
                    j < width,
                    height == data@.len(),
                    forall|kk: int| 0 <= kk < height ==> (#[trigger] data@[kk])@.len() >= width,
                    h == data@[i as int]@[j as int],
                    vis == forall|kk: int| i < kk < k ==> #[trigger] data@[kk]@[j as int] < h,
                decreases height - k,
            {
                if data[k][j] >= h {
                    vis = false;
                }
                k = k + 1;
            }
            let bottom = vis;
            proof {
                let gi = g[i as int];
                assert(gi == data@[i as int]@);
                assert(h == g[i as int][j as int]);
                assert(left == forall|k: int| 0 <= k < j ==> #[trigger] g[i as int][k] < h);
                assert(right == forall|k: int| j < k < width ==> #[trigger] g[i as int][k] < h);
                if top {
                    assert forall|k: int| 0 <= k < i implies #[trigger] g[k][j as int] < h by {
                        assert(g[k] == data@[k]@);
                        assert(data@[k]@[j as int] < h);
                    }
                } else {
                    let k = choose|k: int| 0 <= k < i && !(#[trigger] data@[k]@[j as int] < h);
                    assert(g[k] == data@[k]@);
                    assert(!(g[k][j as int] < h));
                }
                if bottom {
                    assert forall|k: int| i < k < g.len() implies #[trigger] g[k][j as int] < h by {
                        assert(g[k] == data@[k]@);
                        assert(data@[k]@[j as int] < h);
                    }
                } else {
                    let k = choose|k: int| i < k < height && !(#[trigger] data@[k]@[j as int] < h);
                    assert(g[k] == data@[k]@);
                    assert(!(g[k][j as int] < h));
                }
            }
            row.push(left || right || top || bottom);
        }
        result.push(row);
    }
    result
}

/// The number of `true` entries of a row.
pub open spec fn row_count(row: Seq<bool>) -> int
    decreases row.len(),
{
    if row.len() == 0 { 0 } else { row_count(row.drop_last()) + if row.last() { 1int } else { 0 } }
}

/// The number of `true` entries among the first `n` rows.
pub open spec fn count_true(rows: Seq<Seq<bool>>, n: int) -> int
    decreases n,
{
    if n <= 0 { 0 } else { count_true(rows, n - 1) + row_count(rows[n - 1]) }
}

proof fn lemma_row_count_bounds(row: Seq<bool>)
    ensures
        0 <= row_count(row) <= row.len(),
    decreases row.len(),
{
    if row.len() > 0 {
        lemma_row_count_bounds(row.drop_last());
    }
}

proof fn lemma_count_prefix(rows: Seq<Seq<bool>>, k: int, m: int)
    requires
        0 <= k <= m,
    ensures
        count_true(rows, k) <= count_true(rows, m),
    decreases m - k,
{
    if k < m {
        lemma_count_prefix(rows, k, m - 1);
        lemma_row_count_bounds(rows[m - 1]);
    }
}

/// The number of visible trees.
pub fn count_visible(data: &Vec<Vec<bool>>) -> (r: usize)
    requires
        count_true(data@.map_values(|row: Vec<bool>| row@), data@.len() as int) <= usize::MAX,
    ensures
        r == count_true(data@.map_values(|row: Vec<bool>| row@), data@.len() as int),
{
    let ghost g = data@.map_values(|row: Vec<bool>| row@);
    let mut c: usize = 0;
    let n = data.len();
    for i in 0..n
        invariant
            n == data@.len(),
            g == data@.map_values(|row: Vec<bool>| row@),
            count_true(g, n as int) <= usize::MAX,
            c == count_true(g, i as int),
    {
        let m = data[i].len();
        proof {
            assert(g[i as int] == data@[i as int]@);
            lemma_count_prefix(g, i + 1, n as int);
        }
        let ghost base = c as int;
        for j in 0..m
            invariant
                m == data@[i as int]@.len(),
                i < n,
                n == data@.len(),
                g[i as int] == data@[i as int]@,
                count_true(g, i + 1) <= usize::MAX,
                count_true(g, i + 1) == base + row_count(g[i as int]),
                c == base + row_count(g[i as int].take(j as int)),
        {
            proof {
                assert(g[i as int].take(j + 1).drop_last() =~= g[i as int].take(j as int));
                lemma_row_prefix(g[i as int], j + 1);
            }
            if data[i][j] {
                c = c + 1;
            }
        }
        proof {
            assert(g[i as int].take(m as int) =~= g[i as int]);
        }
    }
    c
}

/// Counting a prefix of a row gives at most the count of the row.
proof fn lemma_row_prefix(row: Seq<bool>, k: int)
    requires
        0 <= k <= row.len(),
    ensures
        row_count(row.take(k)) <= row_count(row),
    decreases row.len() - k,
{
    if k < row.len() {
        lemma_row_prefix(row, k + 1);
        assert(row.take(k + 1).drop_last() =~= row.take(k));
    } else {
        assert(row.take(k) =~= row);
    }
}

} // verus!
