//! Cosmic expansion: galaxies on a star map, with every empty row and
//! column doubled, and the sum of their pairwise distances.
use vstd::prelude::*;
use std::collections::HashSet;
use crate::text::{chars_of, nonblank, nonblank_lines, views_of};

verus! {

/// The expanded star map: its size and the galaxies, row by row.
pub struct Input {
    pub rows: usize,
    pub columns: usize,
    pub galaxies: Vec<(usize, usize)>,
}

/// Why the distances cannot be summed.
#[derive(Clone, Copy, Debug, PartialEq, Eq, Structural)]
pub enum GalaxyError {
    /// The sum does not fit in a `usize`.
    Overflow,
}

/// The galaxies (`#`) of one line, left to right, at row `r`.
pub open spec fn hashes_in(line: Seq<char>, r: int) -> Seq<(int, int)>
    decreases line.len(),
{
    if line.len() == 0 {
        Seq::empty()
    } else {
        hashes_in(line.drop_last(), r) + if line.last() == '#' {
            seq![(r, line.len() - 1)]
        } else {
            Seq::empty()
        }
    }
}

/// The galaxies of the map, row by row.
pub open spec fn galaxies_in(rows: Seq<Seq<char>>) -> Seq<(int, int)>
    decreases rows.len(),
{
    if rows.len() == 0 {
        Seq::empty()
    } else {
        galaxies_in(rows.drop_last()) + hashes_in(rows.last(), rows.len() - 1)
    }
}

/// The length of the longest line.
pub open spec fn width(rows: Seq<Seq<char>>) -> int
    decreases rows.len(),
{
    if rows.len() == 0 {
        0
    } else {
        let w = width(rows.drop_last());
        if rows.last().len() > w {
            rows.last().len() as int
        } else {
            w
        }
    }
}

/// Row `r` holds no galaxy.
pub open spec fn empty_row(rows: Seq<Seq<char>>, r: int) -> bool {
    forall|c: int| 0 <= c < rows[r].len() ==> #[trigger] rows[r][c] != '#'
}

/// Column `c` holds no galaxy.
pub open spec fn empty_col(rows: Seq<Seq<char>>, c: int) -> bool {
    forall|r: int| 0 <= r < rows.len() && c < rows[r].len() ==> #[trigger] rows[r][c] != '#'
}

/// The empty rows from `t` up to, not including, `x`.
pub open spec fn empty_rows(rows: Seq<Seq<char>>, t: int, x: int) -> int
    decreases x - t,
{
    if x <= t {
        0
    } else {
        empty_rows(rows, t, x - 1) + if empty_row(rows, x - 1) { 1int } else { 0int }
    }
}

/// The empty columns from `t` up to, not including, `x`.
pub open spec fn empty_cols(rows: Seq<Seq<char>>, t: int, x: int) -> int
    decreases x - t,
{
    if x <= t {
        0
    } else {
        empty_cols(rows, t, x - 1) + if empty_col(rows, x - 1) { 1int } else { 0int }
    }
}

/// Where a galaxy lands once each empty row and column above and left of
/// it is doubled.
pub open spec fn expanded(rows: Seq<Seq<char>>, g: (int, int)) -> (int, int) {
    (g.0 + empty_rows(rows, 0, g.0), g.1 + empty_cols(rows, 0, g.1))
}

/// The distance between two galaxies along the grid.
pub open spec fn manhattan(a: (usize, usize), b: (usize, usize)) -> int {
    (if a.0 >= b.0 { a.0 - b.0 } else { b.0 - a.0 }) + (if a.1 >= b.1 { a.1 - b.1 } else { b.1 - a.1 })
}

/// The sum of the distances from galaxy `i` to each of the first `j`.
pub open spec fn row_total(gs: Seq<(usize, usize)>, i: int, j: int) -> int
    decreases j,
{
    if j <= 0 {
        0
    } else {
        row_total(gs, i, j - 1) + manhattan(gs[i], gs[j - 1])
    }
}

/// The sum of the distances between each two of the first `i` galaxies.
pub open spec fn pairs_total(gs: Seq<(usize, usize)>, i: int) -> int
    decreases i,
{
    if i <= 0 {
        0
    } else {
        pairs_total(gs, i - 1) + row_total(gs, i - 1, i - 1)
    }
}

/// Every coordinate is at most a quarter of the largest `usize`.
pub open spec fn bounded(gs: Seq<(usize, usize)>) -> bool {
    forall|k: int| 0 <= k < gs.len() ==> #[trigger] gs[k].0 <= usize::MAX / 4 && gs[k].1 <= usize::MAX / 4
}

/// No line is so long, and there are not so many, that doubling overflows.
pub open spec fn small_map(lines: Seq<String>) -> bool {
    &&& lines.len() <= usize::MAX / 8
    &&& forall|k: int| 0 <= k < lines.len() ==> #[trigger] lines[k]@.len() <= usize::MAX / 8
}

pub open spec fn pos(p: (usize, usize)) -> (int, int) {
    (p.0 as int, p.1 as int)
}

/// A walk along the grid is never shorter than the straight distance: the
/// grid distance satisfies the triangle inequality.
pub proof fn lemma_manhattan_triangle(a: (usize, usize), b: (usize, usize), c: (usize, usize))
    ensures
        manhattan(a, c) <= manhattan(a, b) + manhattan(b, c),
{
}

/// Counting empty rows from `t - 1` instead of `t` adds row `t - 1` when
/// it is empty and below `x`.
proof fn lemma_empty_rows_step(rows: Seq<Seq<char>>, t: int, x: int)
    requires
        1 <= t,
    ensures
        empty_rows(rows, t - 1, x) == empty_rows(rows, t, x) + if t - 1 < x && empty_row(rows, t - 1) { 1int } else { 0int },
    decreases x - t,
{
    reveal_with_fuel(empty_rows, 2);
    if x > t {
        lemma_empty_rows_step(rows, t, x - 1);
    }
}

proof fn lemma_empty_cols_step(rows: Seq<Seq<char>>, t: int, x: int)
    requires
        1 <= t,
    ensures
        empty_cols(rows, t - 1, x) == empty_cols(rows, t, x) + if t - 1 < x && empty_col(rows, t - 1) { 1int } else { 0int },
    decreases x - t,
{
    reveal_with_fuel(empty_cols, 2);
    if x > t {
        lemma_empty_cols_step(rows, t, x - 1);
    }
}

proof fn lemma_empty_rows_bound(rows: Seq<Seq<char>>, t: int, x: int)
    ensures
        0 <= empty_rows(rows, t, x),
        x >= t ==> empty_rows(rows, t, x) <= x - t,
    decreases x - t,
{
    if x > t {
        lemma_empty_rows_bound(rows, t, x - 1);
    }
}

proof fn lemma_empty_cols_bound(rows: Seq<Seq<char>>, t: int, x: int)
    ensures
        0 <= empty_cols(rows, t, x),
        x >= t ==> empty_cols(rows, t, x) <= x - t,
    decreases x - t,
{
    if x > t {
        lemma_empty_cols_bound(rows, t, x - 1);
    }
}

proof fn lemma_hashes_in(line: Seq<char>, r: int)
    ensures
        forall|k: int| 0 <= k < hashes_in(line, r).len() ==> {
            &&& (#[trigger] hashes_in(line, r)[k]).0 == r
            &&& 0 <= hashes_in(line, r)[k].1 < line.len()
            &&& line[hashes_in(line, r)[k].1] == '#'
        },
    decreases line.len(),
{
    if line.len() > 0 {
        lemma_hashes_in(line.drop_last(), r);
        let h = hashes_in(line.drop_last(), r);
        assert forall|k: int| 0 <= k < hashes_in(line, r).len() implies {
            &&& (#[trigger] hashes_in(line, r)[k]).0 == r
            &&& 0 <= hashes_in(line, r)[k].1 < line.len()
            &&& line[hashes_in(line, r)[k].1] == '#'
        } by {
            if k < h.len() {
                assert(hashes_in(line, r)[k] == h[k]);
                assert(line[h[k].1] == line.drop_last()[h[k].1]);
            }
        }
    }
}

proof fn lemma_galaxies_in(rows: Seq<Seq<char>>)
    ensures
        forall|k: int| 0 <= k < galaxies_in(rows).len() ==> {
            &&& 0 <= (#[trigger] galaxies_in(rows)[k]).0 < rows.len()
            &&& 0 <= galaxies_in(rows)[k].1 < rows[galaxies_in(rows)[k].0].len()
            &&& rows[galaxies_in(rows)[k].0][galaxies_in(rows)[k].1] == '#'
        },
    decreases rows.len(),
{
    if rows.len() > 0 {
        lemma_galaxies_in(rows.drop_last());
        lemma_hashes_in(rows.last(), rows.len() - 1);
        let a = galaxies_in(rows.drop_last());
        let b = hashes_in(rows.last(), rows.len() - 1);
        assert forall|k: int| 0 <= k < galaxies_in(rows).len() implies {
            &&& 0 <= (#[trigger] galaxies_in(rows)[k]).0 < rows.len()
            &&& 0 <= galaxies_in(rows)[k].1 < rows[galaxies_in(rows)[k].0].len()
            &&& rows[galaxies_in(rows)[k].0][galaxies_in(rows)[k].1] == '#'
        } by {
            if k < a.len() {
                assert(galaxies_in(rows)[k] == a[k]);
                assert(rows[a[k].0] == rows.drop_last()[a[k].0]);
            } else {
                assert(galaxies_in(rows)[k] == b[k - a.len()]);
            }
        }
    }
}

proof fn lemma_width(rows: Seq<Seq<char>>)
    ensures
        forall|r: int| 0 <= r < rows.len() ==> #[trigger] rows[r].len() <= width(rows),
        width(rows) >= 0,
        rows.len() > 0 ==> exists|r: int| 0 <= r < rows.len() && #[trigger] rows[r].len() == width(rows),
    decreases rows.len(),
{
    if rows.len() > 0 {
        lemma_width(rows.drop_last());
        assert forall|r: int| 0 <= r < rows.len() implies #[trigger] rows[r].len() <= width(rows) by {
            if r < rows.len() - 1 {
                assert(rows[r] == rows.drop_last()[r]);
            }
        }
        if rows.last().len() > width(rows.drop_last()) {
            assert(rows[rows.len() - 1].len() == width(rows));
        } else if rows.len() > 1 {
            let r = choose|r: int| 0 <= r < rows.drop_last().len() && #[trigger] rows.drop_last()[r].len() == width(rows.drop_last());
            assert(rows[r].len() == width(rows));
        } else {
            assert(rows[0].len() == width(rows));
        }
    }
}

impl Input {
    /// Reads the star map (blank lines skipped, each trimmed) and doubles
    /// every row and every column that holds no galaxy.
    pub fn read(lines: &Vec<String>) -> (r: Input)
        requires
            small_map(lines@),
        ensures
            r.rows == nonblank(views_of(lines@)).len() + empty_rows(nonblank(views_of(lines@)), 0, nonblank(views_of(lines@)).len() as int),
            r.columns == width(nonblank(views_of(lines@))) + empty_cols(nonblank(views_of(lines@)), 0, width(nonblank(views_of(lines@)))),
            r.galaxies@.len() == galaxies_in(nonblank(views_of(lines@))).len(),
            forall|k: int| 0 <= k < r.galaxies@.len() ==> pos(#[trigger] r.galaxies@[k]) == expanded(
                nonblank(views_of(lines@)),
                galaxies_in(nonblank(views_of(lines@)))[k],
            ),
            bounded(r.galaxies@),
    {
        let nb = nonblank_lines(lines);
        let ghost rows = views_of(nb@);
        proof {
            lemma_nonblank_small(views_of(lines@));
        }
        let mut rows_n: usize = 0;
        let mut columns: usize = 0;
        let mut galaxies: Vec<(usize, usize)> = Vec::new();
        let mut rows_seen: HashSet<usize> = HashSet::new();
        let mut columns_seen: HashSet<usize> = HashSet::new();
        while rows_n < nb.len()
            invariant
                rows == views_of(nb@),
                rows == nonblank(views_of(lines@)),
                rows.len() <= usize::MAX / 8,
                forall|k: int| 0 <= k < rows.len() ==> #[trigger] rows[k].len() <= usize::MAX / 8,
                rows_n <= rows.len(),
                galaxies@.map_values(|g: (usize, usize)| pos(g)) == galaxies_in(rows.take(rows_n as int)),
                columns == width(rows.take(rows_n as int)),
                forall|r: usize| #[trigger] rows_seen@.contains(r) <==> (r < rows_n && !empty_row(rows, r as int)),
                forall|c: usize| #[trigger] columns_seen@.contains(c) <==> exists|r: int|
                    0 <= r < rows_n && c < rows[r].len() && #[trigger] rows[r][c as int] == '#',
            decreases rows.len() - rows_n,
        {
            let cs = chars_of(nb[rows_n].as_str());
            let ghost line = rows[rows_n as int];
            assert(cs@ == line);
            let ghost g_before = galaxies@;
            let ghost cols_before = columns_seen@;
            let ghost w_before = columns;
            let mut i: usize = 0;
            let mut any = false;
            while i < cs.len()
                invariant
                    cs@ == line,
                    line.len() <= usize::MAX / 8,
                    i <= line.len(),
                    rows_n < usize::MAX / 8,
                    galaxies@.map_values(|g: (usize, usize)| pos(g)) == g_before.map_values(|g: (usize, usize)| pos(g))
                        + hashes_in(line.take(i as int), rows_n as int),
                    columns == if i == 0 { w_before as int } else if (i as int) > w_before { i as int } else { w_before as int },
                    any == exists|c: int| 0 <= c < i && line[c] == '#',
                    forall|c: usize| #[trigger] columns_seen@.contains(c) <==> (cols_before.contains(c) || (c < i && line[c as int] == '#')),
                    forall|r: usize| #[trigger] rows_seen@.contains(r) <==> (r < rows_n && !empty_row(rows, r as int)) || (r == rows_n && any),
                    rows == views_of(nb@),
                    rows[rows_n as int] == line,
                decreases line.len() - i,
            {
                if columns < i + 1 {
                    columns = i + 1;
                }
                let ghost gb = galaxies@;
                if cs[i] == '#' {
                    galaxies.push((rows_n, i));
                    rows_seen.insert(rows_n);
                    columns_seen.insert(i);
                    any = true;
                }
                assert(line.take(i + 1).drop_last() =~= line.take(i as int));
                assert(galaxies@.map_values(|g: (usize, usize)| pos(g)) =~= gb.map_values(|g: (usize, usize)| pos(g)) + if line[i as int] == '#' {
                    seq![(rows_n as int, i as int)]
                } else {
                    Seq::empty()
                });
                i = i + 1;
            }
            assert(line.take(i as int) =~= line);
            assert(rows.take(rows_n + 1).drop_last() =~= rows.take(rows_n as int));
            assert(rows.take(rows_n + 1).last() == line);
            proof {
                assert forall|r: usize| #[trigger] rows_seen@.contains(r) <==> (r < rows_n + 1 && !empty_row(rows, r as int)) by {
                    if r == rows_n {
                        if any {
                            let c = choose|c: int| 0 <= c < i && line[c] == '#';
                            assert(rows[r as int][c] == '#');
                        }
                    }
                }
                assert forall|c: usize| #[trigger] columns_seen@.contains(c) <==> exists|r: int|
                    0 <= r < rows_n + 1 && c < rows[r].len() && #[trigger] rows[r][c as int] == '#' by {
                    if exists|r: int| 0 <= r < rows_n + 1 && c < rows[r].len() && #[trigger] rows[r][c as int] == '#' {
                        let r = choose|r: int| 0 <= r < rows_n + 1 && c < rows[r].len() && #[trigger] rows[r][c as int] == '#';
                        if r < rows_n {
                            assert(cols_before.contains(c));
                        }
                    }
                }
                assert(line.len() > 0) by {
                    lemma_nonblank_nonempty_here(views_of(lines@), rows_n as int);
                }
            }
            rows_n = rows_n + 1;
        }
        assert(rows.take(rows_n as int) =~= rows);
        proof {
            lemma_galaxies_in(rows);
            lemma_width(rows);
        }
        let ghost orig = galaxies@;
        proof {
            assert forall|k: int| 0 <= k < orig.len() implies pos(#[trigger] orig[k]) == galaxies_in(rows)[k] by {
                assert(galaxies@.map_values(|g: (usize, usize)| pos(g))[k] == pos(galaxies@[k]));
            }
        }
        let ghost nrows = rows_n as int;
        let ghost ncols = columns as int;
        let mut total_rows = rows_n;
        let mut row = rows_n;
        while row > 0
            invariant
                rows.len() <= usize::MAX / 8,
                nrows == rows.len(),
                0 <= row <= nrows,
                galaxies@.len() == orig.len(),
                forall|r: usize| #[trigger] rows_seen@.contains(r) <==> (r < nrows && !empty_row(rows, r as int)),
                forall|k: int| 0 <= k < orig.len() ==> (#[trigger] orig[k]).0 < nrows,
                forall|k: int| 0 <= k < galaxies@.len() ==> (#[trigger] galaxies@[k]).0 == orig[k].0 + empty_rows(rows, row as int, orig[k].0 as int)
                    && galaxies@[k].1 == orig[k].1,
                total_rows == nrows + empty_rows(rows, row as int, nrows),
            decreases row,
        {
            let r = row - 1;
            proof {
                lemma_empty_rows_step(rows, row as int, nrows);
                lemma_empty_rows_bound(rows, row as int, nrows);
            }
            if !rows_seen.contains(&r) {
                let mut k: usize = 0;
                let ghost before = galaxies@;
                while k < galaxies.len()
                    invariant
                        nrows <= usize::MAX / 8,
                        r < nrows,
                        r + 1 == row,
                        empty_row(rows, r as int),
                        galaxies@.len() == orig.len(),
                        before.len() == orig.len(),
                        forall|j: int| 0 <= j < orig.len() ==> (#[trigger] orig[j]).0 < nrows,
                        forall|j: int| 0 <= j < before.len() ==> (#[trigger] before[j]).0 == orig[j].0 + empty_rows(rows, row as int, orig[j].0 as int)
                            && before[j].1 == orig[j].1,
                        forall|j: int| 0 <= j < galaxies@.len() ==> #[trigger] galaxies@[j] == if j < k {
                            if before[j].0 > r { ((before[j].0 + 1) as usize, before[j].1) } else { before[j] }
                        } else {
                            before[j]
                        },
                        k <= galaxies@.len(),
                    decreases galaxies@.len() - k,
                {
                    let g = galaxies[k];
                    proof {
                        lemma_empty_rows_bound(rows, row as int, orig[k as int].0 as int);
                    }
                    if g.0 > r {
                        galaxies.set(k, (g.0 + 1, g.1));
                    }
                    k = k + 1;
                }
                total_rows = total_rows + 1;
                proof {
                    assert forall|j: int| 0 <= j < galaxies@.len() implies (#[trigger] galaxies@[j]).0 == orig[j].0 + empty_rows(rows, r as int, orig[j].0 as int)
                        && galaxies@[j].1 == orig[j].1 by {
                        lemma_empty_rows_step(rows, row as int, orig[j].0 as int);
                        lemma_empty_rows_bound(rows, row as int, orig[j].0 as int);
                        if orig[j].0 <= r {
                            assert(empty_rows(rows, row as int, orig[j].0 as int) == 0);
                        }
                    }
                }
            } else {
                proof {
                    assert forall|j: int| 0 <= j < galaxies@.len() implies (#[trigger] galaxies@[j]).0 == orig[j].0 + empty_rows(rows, r as int, orig[j].0 as int)
                        && galaxies@[j].1 == orig[j].1 by {
                        lemma_empty_rows_step(rows, row as int, orig[j].0 as int);
                    }
                }
            }
            row = r;
        }
        let mut total_cols = columns;
        let mut col = columns;
        while col > 0
            invariant
                ncols <= usize::MAX / 8,
                ncols == width(rows),
                0 <= col <= ncols,
                galaxies@.len() == orig.len(),
                forall|c: usize| #[trigger] columns_seen@.contains(c) <==> exists|r: int|
                    0 <= r < nrows && c < rows[r].len() && #[trigger] rows[r][c as int] == '#',
                nrows == rows.len(),
                forall|r: int| 0 <= r < rows.len() ==> #[trigger] rows[r].len() <= width(rows),
                forall|k: int| 0 <= k < orig.len() ==> (#[trigger] orig[k]).1 < ncols,
                forall|k: int| 0 <= k < galaxies@.len() ==> (#[trigger] galaxies@[k]).1 == orig[k].1 + empty_cols(rows, col as int, orig[k].1 as int)
                    && galaxies@[k].0 == orig[k].0 + empty_rows(rows, 0, orig[k].0 as int),
                total_cols == ncols + empty_cols(rows, col as int, ncols),
            decreases col,
        {
            let c = col - 1;
            proof {
                lemma_empty_cols_step(rows, col as int, ncols);
                lemma_empty_cols_bound(rows, col as int, ncols);
            }
            if !columns_seen.contains(&c) {
                assert(empty_col(rows, c as int)) by {
                    assert forall|r: int| 0 <= r < rows.len() && c < rows[r].len() implies #[trigger] rows[r][c as int] != '#' by {
                        if rows[r][c as int] == '#' {
                            assert(columns_seen@.contains(c));
                        }
                    }
                }
                let mut k: usize = 0;
                let ghost before = galaxies@;
                while k < galaxies.len()
                    invariant
                        ncols <= usize::MAX / 8,
                        c < ncols,
                        c + 1 == col,
                        empty_col(rows, c as int),
                        galaxies@.len() == orig.len(),
                        before.len() == orig.len(),
                        forall|j: int| 0 <= j < orig.len() ==> (#[trigger] orig[j]).1 < ncols,
                        forall|j: int| 0 <= j < before.len() ==> (#[trigger] before[j]).1 == orig[j].1 + empty_cols(rows, col as int, orig[j].1 as int)
                            && before[j].0 == orig[j].0 + empty_rows(rows, 0, orig[j].0 as int),
                        forall|j: int| 0 <= j < galaxies@.len() ==> #[trigger] galaxies@[j] == if j < k {
                            if before[j].1 > c { (before[j].0, (before[j].1 + 1) as usize) } else { before[j] }
                        } else {
                            before[j]
                        },
                        k <= galaxies@.len(),
                    decreases galaxies@.len() - k,
                {
                    let g = galaxies[k];
                    proof {
                        lemma_empty_cols_bound(rows, col as int, orig[k as int].1 as int);
                    }
                    if g.1 > c {
                        galaxies.set(k, (g.0, g.1 + 1));
                    }
                    k = k + 1;
                }
                total_cols = total_cols + 1;
                proof {
                    assert forall|j: int| 0 <= j < galaxies@.len() implies (#[trigger] galaxies@[j]).1 == orig[j].1 + empty_cols(rows, c as int, orig[j].1 as int)
                        && galaxies@[j].0 == orig[j].0 + empty_rows(rows, 0, orig[j].0 as int) by {
                        lemma_empty_cols_step(rows, col as int, orig[j].1 as int);
                        lemma_empty_cols_bound(rows, col as int, orig[j].1 as int);
                        if orig[j].1 <= c {
                            assert(empty_cols(rows, col as int, orig[j].1 as int) == 0);
                        }
                    }
                }
            } else {
                assert(!empty_col(rows, c as int)) by {
                    let r = choose|r: int| 0 <= r < nrows && c < rows[r].len() && #[trigger] rows[r][c as int] == '#';
                }
                proof {
                    assert forall|j: int| 0 <= j < galaxies@.len() implies (#[trigger] galaxies@[j]).1 == orig[j].1 + empty_cols(rows, c as int, orig[j].1 as int)
                        && galaxies@[j].0 == orig[j].0 + empty_rows(rows, 0, orig[j].0 as int) by {
                        lemma_empty_cols_step(rows, col as int, orig[j].1 as int);
                    }
                }
            }
            col = c;
        }
        proof {
            assert forall|k: int| 0 <= k < galaxies@.len() implies pos(#[trigger] galaxies@[k]) == expanded(rows, galaxies_in(rows)[k]) by {
                assert(pos(orig[k]) == galaxies_in(rows)[k]);
            }
            assert forall|k: int| 0 <= k < galaxies@.len() implies #[trigger] galaxies@[k].0 <= usize::MAX / 4 && galaxies@[k].1 <= usize::MAX / 4 by {
                lemma_empty_rows_bound(rows, 0, orig[k].0 as int);
                lemma_empty_cols_bound(rows, 0, orig[k].1 as int);
            }
        }
        Input { rows: total_rows, columns: total_cols, galaxies }
    }
}

proof fn lemma_nonblank_small(lines: Seq<Seq<char>>)
    ensures
        nonblank(lines).len() <= lines.len(),
        forall|k: int| 0 <= k < nonblank(lines).len() ==> exists|j: int| 0 <= j < lines.len() && #[trigger] nonblank(lines)[k].len() <= lines[j].len(),
    decreases lines.len(),
{
    if lines.len() > 0 {
        lemma_nonblank_small(lines.drop_last());
        crate::text::lemma_trimmed_len(lines.last());
        let rest = nonblank(lines.drop_last());
        assert forall|k: int| 0 <= k < nonblank(lines).len() implies exists|j: int| 0 <= j < lines.len() && #[trigger] nonblank(lines)[k].len() <= lines[j].len() by {
            if k < rest.len() {
                let j = choose|j: int| 0 <= j < lines.drop_last().len() && #[trigger] rest[k].len() <= lines.drop_last()[j].len();
                assert(nonblank(lines)[k] == rest[k]);
                assert(lines[j] == lines.drop_last()[j]);
            } else {
                assert(nonblank(lines)[k].len() <= lines[lines.len() - 1].len());
            }
        }
    }
}

proof fn lemma_nonblank_nonempty_here(lines: Seq<Seq<char>>, k: int)
    requires
        0 <= k < nonblank(lines).len(),
    ensures
        nonblank(lines)[k].len() > 0,
{
    crate::text::lemma_nonblank_nonempty(lines);
}

proof fn lemma_row_total_mono(gs: Seq<(usize, usize)>, i: int, j: int, m: int)
    requires
        0 <= j <= m,
    ensures
        0 <= row_total(gs, i, j) <= row_total(gs, i, m),
    decreases m - j,
{
    if j < m {
        lemma_row_total_mono(gs, i, j, m - 1);
    } else {
        lemma_row_total_nonneg(gs, i, j);
    }
}

proof fn lemma_row_total_nonneg(gs: Seq<(usize, usize)>, i: int, j: int)
    ensures
        0 <= row_total(gs, i, j),
    decreases j,
{
    if j > 0 {
        lemma_row_total_nonneg(gs, i, j - 1);
    }
}

proof fn lemma_pairs_total_mono(gs: Seq<(usize, usize)>, i: int, m: int)
    requires
        0 <= i <= m,
    ensures
        0 <= pairs_total(gs, i) <= pairs_total(gs, m),
    decreases m - i,
{
    if i < m {
        lemma_pairs_total_mono(gs, i, m - 1);
        lemma_row_total_nonneg(gs, m - 1, m - 1);
    } else {
        lemma_pairs_total_nonneg(gs, i);
    }
}

proof fn lemma_pairs_total_nonneg(gs: Seq<(usize, usize)>, i: int)
    ensures
        0 <= pairs_total(gs, i),
    decreases i,
{
    if i > 0 {
        lemma_pairs_total_nonneg(gs, i - 1);
        lemma_row_total_nonneg(gs, i - 1, i - 1);
    }
}

/// The first `m` rows of `adj` hold the distances between the galaxies.
pub open spec fn dist_rows(adj: Seq<Vec<usize>>, gs: Seq<(usize, usize)>, m: int) -> bool {
    &&& forall|a: int| 0 <= a < m ==> #[trigger] adj[a]@.len() == gs.len()
    &&& forall|a: int, b: int| 0 <= a < m && 0 <= b < gs.len() ==> #[trigger] adj[a]@[b] == manhattan(gs[a], gs[b])
}

/// The distance between two galaxies, exactly.
fn distance(a: (usize, usize), b: (usize, usize)) -> (d: usize)
    requires
        a.0 <= usize::MAX / 4,
        a.1 <= usize::MAX / 4,
        b.0 <= usize::MAX / 4,
        b.1 <= usize::MAX / 4,
    ensures
        d == manhattan(a, b),
        d <= usize::MAX / 2,
{
    let dy = if a.0 >= b.0 { a.0 - b.0 } else { b.0 - a.0 };
    let dx = if a.1 >= b.1 { a.1 - b.1 } else { b.1 - a.1 };
    dx + dy
}

impl Input {
    /// The sum of the distances between every two galaxies: shortest paths
    /// found over the grid distances, which the search leaves as they are.
    /// `Overflow` exactly when the sum does not fit in a `usize`.
    pub fn part1(&self) -> (r: Result<usize, GalaxyError>)
        requires
            bounded(self.galaxies@),
        ensures
            r matches Ok(t) ==> t == pairs_total(self.galaxies@, self.galaxies@.len() as int),
            r is Err <==> pairs_total(self.galaxies@, self.galaxies@.len() as int) > usize::MAX,
    {
        let ghost gs = self.galaxies@;
        let n = self.galaxies.len();
        let mut adj: Vec<Vec<usize>> = Vec::new();
        let mut i: usize = 0;
        while i < n
            invariant
                n == gs.len(),
                gs == self.galaxies@,
                bounded(gs),
                i <= n,
                adj@.len() == i,
                dist_rows(adj@, gs, i as int),
            decreases n - i,
        {
            let gi = self.galaxies[i];
            let mut row: Vec<usize> = Vec::new();
            let mut j: usize = 0;
            while j < n
                invariant
                    n == gs.len(),
                    gs == self.galaxies@,
                    bounded(gs),
                    i < n,
                    gi == gs[i as int],
                    j <= n,
                    row@.len() == j,
                    forall|b: int| 0 <= b < j ==> #[trigger] row@[b] == manhattan(gs[i as int], gs[b]),
                decreases n - j,
            {
                let gj = self.galaxies[j];
                assert(gi.0 <= usize::MAX / 4 && gi.1 <= usize::MAX / 4);
                assert(gs[j as int].0 <= usize::MAX / 4 && gs[j as int].1 <= usize::MAX / 4);
                row.push(distance(gi, gj));
                j = j + 1;
            }
            adj.push(row);
            i = i + 1;
        }
        let mut k: usize = 0;
        while k < n
            invariant
                n == gs.len(),
                k <= n,
                adj@.len() == n,
                dist_rows(adj@, gs, n as int),
                bounded(gs),
            decreases n - k,
        {
            let mut i: usize = 0;
            while i < n
                invariant
                    n == gs.len(),
                    k < n,
                    i <= n,
                    adj@.len() == n,
                    dist_rows(adj@, gs, n as int),
                    bounded(gs),
                decreases n - i,
            {
                let mut j: usize = 0;
                while j < i
                    invariant
                        n == gs.len(),
                        k < n,
                        i < n,
                        j <= i,
                        adj@.len() == n,
                        dist_rows(adj@, gs, n as int),
                        bounded(gs),
                    decreases i - j,
                {
                    let d1 = adj[i][j];
                    assert(gs[i as int].0 <= usize::MAX / 4 && gs[i as int].1 <= usize::MAX / 4);
                    assert(gs[j as int].0 <= usize::MAX / 4 && gs[j as int].1 <= usize::MAX / 4);
                    assert(gs[k as int].0 <= usize::MAX / 4 && gs[k as int].1 <= usize::MAX / 4);
                    assert(adj@[i as int]@[k as int] == manhattan(gs[i as int], gs[k as int]));
                    assert(adj@[k as int]@[j as int] == manhattan(gs[k as int], gs[j as int]));
                    let d2 = adj[i][k] + adj[k][j];
                    if d2 < d1 {
                        proof {
                            lemma_manhattan_triangle(gs[i as int], gs[k as int], gs[j as int]);
                            assert(false);
                        }
                        let mut row: Vec<usize> = Vec::new();
                        std::mem::swap(&mut row, &mut adj[i]);
                        row.set(j, d2);
                        std::mem::swap(&mut row, &mut adj[i]);
                        std::mem::swap(&mut row, &mut adj[j]);
                        row.set(i, d2);
                        std::mem::swap(&mut row, &mut adj[j]);
                    }
                    j = j + 1;
                }
                i = i + 1;
            }
            k = k + 1;
        }
        let mut total: usize = 0;
        let mut i: usize = 0;
        while i < n
            invariant
                n == gs.len(),
                i <= n,
                adj@.len() == n,
                dist_rows(adj@, gs, n as int),
                total == pairs_total(gs, i as int),
                gs == self.galaxies@,
            decreases n - i,
        {
            let mut j: usize = 0;
            while j < i
                invariant
                    n == gs.len(),
                    i < n,
                    j <= i,
                    adj@.len() == n,
                    dist_rows(adj@, gs, n as int),
                    total == pairs_total(gs, i as int) + row_total(gs, i as int, j as int),
                    gs == self.galaxies@,
                decreases i - j,
            {
                let d = adj[i][j];
                assert(d == manhattan(gs[i as int], gs[j as int]));
                if total > usize::MAX - d {
                    proof {
                        lemma_row_total_mono(gs, i as int, j + 1, i as int);
                        lemma_pairs_total_mono(gs, i + 1, n as int);
                        assert(row_total(gs, i as int, j + 1) == row_total(gs, i as int, j as int) + d);
                        assert(pairs_total(gs, i + 1) == pairs_total(gs, i as int) + row_total(gs, i as int, i as int));
                    }
                    return Err(GalaxyError::Overflow);
                }
                total = total + d;
                j = j + 1;
            }
            i = i + 1;
        }
        Ok(total)
    }

    /// The second answer, which this puzzle leaves at zero.
    pub fn part2(&self) -> (r: i64)
        ensures
            r == 0,
    {
        0
    }

    /// Whether a galaxy lies at row `r`, column `c`.
    pub fn is_galaxy(&self, r: usize, c: usize) -> (b: bool)
        ensures
            b == self.galaxies@.contains((r, c)),
    {
        proof {
            if self.galaxies@.contains((r, c)) {
                let j = choose|j: int| 0 <= j < self.galaxies@.len() && self.galaxies@[j] == (r, c);
            }
        }
        let mut k: usize = 0;
        while k < self.galaxies.len()
            invariant
                k <= self.galaxies@.len(),
                forall|j: int| 0 <= j < k ==> self.galaxies@[j] != (r, c),
                self.galaxies@.contains((r, c)) ==> exists|j: int| k <= j < self.galaxies@.len() && self.galaxies@[j] == (r, c),
            decreases self.galaxies@.len() - k,
        {
            let g = self.galaxies[k];
            if g.0 == r && g.1 == c {
                return true;
            }
            k = k + 1;
        }
        false
    }
}

} // verus!
