//! Step counter: from the start plot of a garden, count the plots reached
//! in exactly 64 steps, a step going to a neighbouring plot.
use vstd::prelude::*;
use crate::text::{chars_of, nonblank, nonblank_lines, views_of};

verus! {

/// Errors of this puzzle.
pub enum Error {
    /// A character other than `.`, `S` and `#`.
    InvalidChar(char),
    /// The start is not a plot.
    StartNotPlot,
    /// Rows of different lengths: the first row's length, then that of the
    /// first row that differs.
    MismatchedRows { got: usize, expected: usize },
}

/// Whether a character of the map is a plot, if it is a map character.
pub open spec fn plot_of(c: char) -> Option<bool> {
    if c == '.' || c == 'S' {
        Some(true)
    } else if c == '#' {
        Some(false)
    } else {
        None
    }
}

/// The cell at row `r`, column `c`: whether it is a plot; outside the
/// garden nothing is.
pub open spec fn is_plot(g: Seq<Seq<bool>>, r: int, c: int) -> bool {
    0 <= r < g.len() && 0 <= c < g[r].len() && g[r][c]
}

/// The plot `(r, c)` can be reached in exactly `i` steps from `(sr, sc)`.
pub open spec fn reached(g: Seq<Seq<bool>>, sr: int, sc: int, i: nat, r: int, c: int) -> bool
    decreases i,
{
    if i == 0 {
        r == sr && c == sc && is_plot(g, r, c)
    } else {
        is_plot(g, r, c) && (reached(g, sr, sc, (i - 1) as nat, r - 1, c) || reached(
            g,
            sr,
            sc,
            (i - 1) as nat,
            r,
            c - 1,
        ) || reached(g, sr, sc, (i - 1) as nat, r + 1, c) || reached(g, sr, sc, (i - 1) as nat, r, c + 1))
    }
}

/// How many cells of the first `n` cells of row `r` are reached.
pub open spec fn count_row(g: Seq<Seq<bool>>, sr: int, sc: int, i: nat, r: int, n: nat) -> nat
    decreases n,
{
    if n == 0 {
        0
    } else {
        count_row(g, sr, sc, i, r, (n - 1) as nat) + if reached(g, sr, sc, i, r, n - 1) {
            1nat
        } else {
            0nat
        }
    }
}

/// How many plots of the first `m` rows are reached.
pub open spec fn count_reached(g: Seq<Seq<bool>>, sr: int, sc: int, i: nat, m: nat) -> nat
    decreases m,
{
    if m == 0 || m > g.len() {
        0
    } else {
        count_reached(g, sr, sc, i, (m - 1) as nat) + count_row(g, sr, sc, i, m - 1, g[m - 1].len())
    }
}

/// The grid is rectangular.
pub open spec fn rectangular(g: Seq<Seq<bool>>) -> bool {
    forall|r: int| 0 <= r < g.len() ==> (#[trigger] g[r]).len() == g[0].len()
}

/// The plots reached in one more step than `prev` records.
fn next_layer(g: &Vec<Vec<bool>>, prev: &Vec<Vec<bool>>, Ghost(sr): Ghost<int>, Ghost(sc): Ghost<int>, Ghost(i): Ghost<nat>) -> (r: Vec<Vec<bool>>)
    requires
        g.len() == prev.len(),
        forall|a: int| 0 <= a < g.len() ==> (#[trigger] g@[a]).len() == prev@[a].len(),
        forall|a: int, b: int|
            0 <= a < g.len() && 0 <= b < g@[a].len() ==> #[trigger] prev@[a]@[b] == reached(
                grid_view(g@),
                sr,
                sc,
                i,
                a,
                b,
            ),
        forall|a: int, b: int| !(0 <= a < g.len() && 0 <= b < g@[a].len()) ==> !reached(grid_view(g@), sr, sc, i, a, b),
    ensures
        r.len() == g.len(),
        forall|a: int| 0 <= a < g.len() ==> (#[trigger] g@[a]).len() == r@[a].len(),
        forall|a: int, b: int|
            0 <= a < g.len() && 0 <= b < g@[a].len() ==> #[trigger] r@[a]@[b] == reached(
                grid_view(g@),
                sr,
                sc,
                i + 1,
                a,
                b,
            ),
{
    let ghost gv = grid_view(g@);
    let rows = g.len();
    let mut out: Vec<Vec<bool>> = Vec::new();
    let mut a: usize = 0;
    while a < rows
        invariant
            rows == g.len(),
            gv == grid_view(g@),
            g.len() == prev.len(),
            forall|x: int| 0 <= x < g.len() ==> (#[trigger] g@[x]).len() == prev@[x].len(),
            forall|x: int, y: int|
                0 <= x < g.len() && 0 <= y < g@[x].len() ==> #[trigger] prev@[x]@[y] == reached(gv, sr, sc, i, x, y),
            forall|x: int, y: int| !(0 <= x < g.len() && 0 <= y < g@[x].len()) ==> !reached(gv, sr, sc, i, x, y),
            a <= rows,
            out.len() == a,
            forall|x: int| 0 <= x < a ==> (#[trigger] g@[x]).len() == out@[x].len(),
            forall|x: int, y: int|
                0 <= x < a && 0 <= y < g@[x].len() ==> #[trigger] out@[x]@[y] == reached(gv, sr, sc, i + 1, x, y),
        decreases rows - a,
    {
        let cols = g[a].len();
        let mut row: Vec<bool> = Vec::new();
        let mut b: usize = 0;
        while b < cols
            invariant
                rows == g.len(),
                gv == grid_view(g@),
                g.len() == prev.len(),
                forall|x: int| 0 <= x < g.len() ==> (#[trigger] g@[x]).len() == prev@[x].len(),
                forall|x: int, y: int|
                    0 <= x < g.len() && 0 <= y < g@[x].len() ==> #[trigger] prev@[x]@[y] == reached(gv, sr, sc, i, x, y),
                forall|x: int, y: int| !(0 <= x < g.len() && 0 <= y < g@[x].len()) ==> !reached(gv, sr, sc, i, x, y),
                a < rows,
                cols == g@[a as int].len(),
                b <= cols,
                row.len() == b,
                forall|y: int| 0 <= y < b ==> #[trigger] row@[y] == reached(gv, sr, sc, i + 1, a as int, y),
            decreases cols - b,
        {
            let mut reachable = false;
            if g[a][b] {
                if a > 0 && b < g[a - 1].len() && prev[a - 1][b] {
                    reachable = true;
                }
                if b > 0 && prev[a][b - 1] {
                    reachable = true;
                }
                if a + 1 < rows && b < g[a + 1].len() && prev[a + 1][b] {
                    reachable = true;
                }
                if b + 1 < cols && prev[a][b + 1] {
                    reachable = true;
                }
            }
            proof {
                let (x, y) = (a as int, b as int);
                assert(gv[x][y] == g@[x]@[y]);
                assert(is_plot(gv, x, y) == g@[x]@[y]);
                if x > 0 && y < g@[x - 1].len() {
                    assert(reached(gv, sr, sc, i, x - 1, y) == prev@[x - 1]@[y]);
                } else {
                    assert(!reached(gv, sr, sc, i, x - 1, y));
                }
                if y > 0 {
                    assert(reached(gv, sr, sc, i, x, y - 1) == prev@[x]@[y - 1]);
                } else {
                    assert(!reached(gv, sr, sc, i, x, y - 1));
                }
                if x + 1 < rows && y < g@[x + 1].len() {
                    assert(reached(gv, sr, sc, i, x + 1, y) == prev@[x + 1]@[y]);
                } else {
                    assert(!reached(gv, sr, sc, i, x + 1, y));
                }
                if y + 1 < cols {
                    assert(reached(gv, sr, sc, i, x, y + 1) == prev@[x]@[y + 1]);
                } else {
                    assert(!reached(gv, sr, sc, i, x, y + 1));
                }
                assert(reachable == reached(gv, sr, sc, (i + 1) as nat, x, y));
            }
            let ghost before = row@;
            row.push(reachable);
            proof {
                vstd::seq::axiom_seq_push_index_same(before, reachable, before.len() as int);
                assert forall|t: int| 0 <= t < before.len() implies #[trigger] row@[t] == before[t] by {
                    vstd::seq::axiom_seq_push_index_different(before, reachable, t);
                }
            }
            b = b + 1;
        }
        out.push(row);
        a = a + 1;
    }
    out
}

/// The plots of the map as plain values.
pub open spec fn grid_view(g: Seq<Vec<bool>>) -> Seq<Seq<bool>> {
    g.map_values(|row: Vec<bool>| row@)
}

/// `(r, c)` is the first character, row by row, that is not a map
/// character.
pub open spec fn is_first_bad(rows: Seq<Seq<char>>, r: int, c: int) -> bool {
    &&& 0 <= r < rows.len()
    &&& 0 <= c < rows[r].len()
    &&& plot_of(rows[r][c]) is None
    &&& forall|a: int, b: int| 0 <= a < r && 0 <= b < rows[a].len() ==> #[trigger] plot_of(rows[a][b]) is Some
    &&& forall|b: int| 0 <= b < c ==> #[trigger] plot_of(rows[r][b]) is Some
}

/// Every character is a map character.
pub open spec fn all_map(rows: Seq<Seq<char>>) -> bool {
    forall|a: int, b: int| 0 <= a < rows.len() && 0 <= b < rows[a].len() ==> #[trigger] plot_of(rows[a][b]) is Some
}

/// Row `k` is the first whose length differs from the first row's.
pub open spec fn is_first_mismatch(rows: Seq<Seq<char>>, k: int) -> bool {
    0 < k < rows.len() && rows[k].len() != rows[0].len() && forall|j: int| 0 <= j < k ==> (#[trigger] rows[j]).len()
        == rows[0].len()
}

/// Reads the garden: each non-blank line, trimmed, is a row of plots (`.`
/// and the start `S`) and rocks (`#`). Fails on the first other
/// character, then on rows of different lengths.
pub fn read_garden(lines: &Vec<String>) -> (r: Result<Vec<Vec<bool>>, Error>)
    ensures
        ({
            let rows = nonblank(views_of(lines@));
            &&& r matches Ok(g) ==> (all_map(rows) && g.len() == rows.len() && (forall|a: int|
                0 <= a < rows.len() ==> (#[trigger] g@[a])@.len() == rows[a].len()) && (forall|a: int, b: int|
                0 <= a < rows.len() && 0 <= b < rows[a].len() ==> Some(#[trigger] g@[a]@[b]) == plot_of(rows[a][b]))
                && rectangular(grid_view(g@)))
            &&& r matches Err(Error::InvalidChar(ch)) ==> (exists|a: int, b: int| is_first_bad(rows, a, b) && rows[a][b] == ch)
            &&& r matches Err(Error::MismatchedRows { got, expected }) ==> (all_map(rows) && exists|k: int|
                is_first_mismatch(rows, k) && got == rows[0].len() && expected == rows[k].len())
            &&& !(r matches Err(Error::StartNotPlot))
        }),
{
    let lines2 = nonblank_lines(lines);
    let ghost rows = views_of(lines2@);
    let n = lines2.len();
    let mut g: Vec<Vec<bool>> = Vec::new();
    let mut a: usize = 0;
    while a < n
        invariant
            n == lines2.len(),
            rows == views_of(lines2@),
            rows == nonblank(views_of(lines@)),
            a <= n,
            g.len() == a,
            forall|x: int, y: int| 0 <= x < a && 0 <= y < rows[x].len() ==> #[trigger] plot_of(rows[x][y]) is Some,
            forall|x: int| 0 <= x < a ==> (#[trigger] g@[x])@.len() == rows[x].len(),
            forall|x: int, y: int| 0 <= x < a && 0 <= y < rows[x].len() ==> Some(#[trigger] g@[x]@[y]) == plot_of(rows[x][y]),
        decreases n - a,
    {
        let cs = chars_of(lines2[a].as_str());
        assert(cs@ == rows[a as int]);
        let mut row: Vec<bool> = Vec::new();
        let mut b: usize = 0;
        while b < cs.len()
            invariant
                rows == views_of(lines2@),
                rows == nonblank(views_of(lines@)),
                forall|x: int, y: int| 0 <= x < a && 0 <= y < rows[x].len() ==> #[trigger] plot_of(rows[x][y]) is Some,
                forall|y: int| 0 <= y < b ==> #[trigger] plot_of(rows[a as int][y]) is Some,
                a < n,
                n == lines2.len(),
                cs@ == rows[a as int],
                forall|x: int, y: int| 0 <= x < a && 0 <= y < rows[x].len() ==> Some(#[trigger] g@[x]@[y]) == plot_of(rows[x][y]),
                b <= cs.len(),
                row.len() == b,
                forall|y: int| 0 <= y < b ==> Some(#[trigger] row@[y]) == plot_of(rows[a as int][y]),
            decreases cs.len() - b,
        {
            let c = cs[b];
            let v = if c == '.' || c == 'S' {
                true
            } else if c == '#' {
                false
            } else {
                proof {
                    assert(is_first_bad(rows, a as int, b as int));
                }
                return Err(Error::InvalidChar(c));
            };
            let ghost before = row@;
            row.push(v);
            proof {
                vstd::seq::axiom_seq_push_len(before, v);
                vstd::seq::axiom_seq_push_index_same(before, v, before.len() as int);
                assert forall|t: int| 0 <= t < before.len() implies #[trigger] row@[t] == before[t] by {
                    vstd::seq::axiom_seq_push_index_different(before, v, t);
                }
            }
            b = b + 1;
        }
        g.push(row);
        a = a + 1;
    }
    if n > 0 {
        let first = g[0].len();
        let mut k: usize = 1;
        while k < n
            invariant
                n == g.len(),
                n == rows.len(),
                rows == nonblank(views_of(lines@)),
                all_map(rows),
                first == g@[0].len(),
                forall|x: int| 0 <= x < n ==> (#[trigger] g@[x])@.len() == rows[x].len(),
                1 <= k <= n,
                forall|j: int| 0 <= j < k ==> (#[trigger] rows[j]).len() == rows[0].len(),
            decreases n - k,
        {
            if g[k].len() != first {
                proof {
                    assert(is_first_mismatch(rows, k as int));
                }
                return Err(Error::MismatchedRows { got: first, expected: g[k].len() });
            }
            k = k + 1;
        }
    }
    proof {
        assert forall|x: int| 0 <= x < g.len() implies (#[trigger] grid_view(g@)[x]).len() == grid_view(g@)[0].len() by {
            assert(rows[x].len() == rows[0].len());
        }
    }
    Ok(g)
}

/// The number of plots reached in exactly 64 steps from (65, 65); fails
/// when the start is a rock.
pub fn process(g: &Vec<Vec<bool>>) -> (r: Result<usize, Error>)
    requires
        rectangular(grid_view(g@)),
        g.len() > 65,
        g@[0].len() > 65,
        g.len() * g@[0].len() <= usize::MAX,
    ensures
        !is_plot(grid_view(g@), 65, 65) ==> r matches Err(Error::StartNotPlot),
        is_plot(grid_view(g@), 65, 65) ==> (r matches Ok(n) && n == count_reached(grid_view(g@), 65, 65, 64, g.len() as nat)),
{
    let ghost gv = grid_view(g@);
    let rows = g.len();
    let cols = g[0].len();
    assert(g@[65]@.len() == cols) by {
        assert(gv[65].len() == gv[0].len());
    }
    if !g[65][65] {
        return Err(Error::StartNotPlot);
    }
    let mut layer: Vec<Vec<bool>> = Vec::new();
    let mut a: usize = 0;
    while a < rows
        invariant
            rows == g.len(),
            gv == grid_view(g@),
            rectangular(gv),
            cols == g@[0].len(),
            a <= rows,
            layer.len() == a,
            forall|x: int| 0 <= x < a ==> (#[trigger] g@[x]).len() == layer@[x].len(),
            forall|x: int, y: int| 0 <= x < a && 0 <= y < g@[x].len() ==> #[trigger] layer@[x]@[y] == reached(gv, 65, 65, 0, x, y),
        decreases rows - a,
    {
        assert(g@[a as int]@.len() == cols) by {
            assert(gv[a as int].len() == gv[0].len());
        }
        let mut row: Vec<bool> = Vec::new();
        let mut b: usize = 0;
        while b < cols
            invariant
                rows == g.len(),
                gv == grid_view(g@),
                a < rows,
                cols == g@[a as int].len(),
                b <= cols,
                row.len() == b,
                forall|y: int| 0 <= y < b ==> #[trigger] row@[y] == reached(gv, 65, 65, 0, a as int, y),
            decreases cols - b,
        {
            let v = a == 65 && b == 65 && g[a][b];
            let ghost before = row@;
            row.push(v);
            proof {
                vstd::seq::axiom_seq_push_len(before, v);
                vstd::seq::axiom_seq_push_index_same(before, v, before.len() as int);
                assert forall|t: int| 0 <= t < before.len() implies #[trigger] row@[t] == before[t] by {
                    vstd::seq::axiom_seq_push_index_different(before, v, t);
                }
            }
            b = b + 1;
        }
        layer.push(row);
        a = a + 1;
    }
    let mut i: usize = 0;
    while i < 64
        invariant
            rows == g.len(),
            gv == grid_view(g@),
            i <= 64,
            layer.len() == rows,
            forall|x: int| 0 <= x < rows ==> (#[trigger] g@[x]).len() == layer@[x].len(),
            forall|x: int, y: int|
                0 <= x < rows && 0 <= y < g@[x].len() ==> #[trigger] layer@[x]@[y] == reached(gv, 65, 65, i as nat, x, y),
        decreases 64 - i,
    {
        proof {
            lemma_reached_in_grid(gv, 65, 65, i as nat);
        }
        layer = next_layer(g, &layer, Ghost(65), Ghost(65), Ghost(i as nat));
        i = i + 1;
    }
    let mut total: usize = 0;
    let mut a: usize = 0;
    while a < rows
        invariant
            rows == g.len(),
            gv == grid_view(g@),
            layer.len() == rows,
            forall|x: int| 0 <= x < rows ==> (#[trigger] g@[x]).len() == layer@[x].len(),
            forall|x: int, y: int|
                0 <= x < rows && 0 <= y < g@[x].len() ==> #[trigger] layer@[x]@[y] == reached(gv, 65, 65, 64, x, y),
            a <= rows,
            total == count_reached(gv, 65, 65, 64, a as nat),
            total <= a * cols,
            rows * cols <= usize::MAX,
            rectangular(gv),
            cols == g@[0].len(),
        decreases rows - a,
    {
        assert(g@[a as int]@.len() == cols) by {
            assert(gv[a as int].len() == gv[0].len());
        }
        let mut count: usize = 0;
        let mut b: usize = 0;
        while b < cols
            invariant
                rows == g.len(),
                gv == grid_view(g@),
                a < rows,
                layer.len() == rows,
                cols == g@[a as int].len(),
                cols == layer@[a as int].len(),
                forall|y: int| 0 <= y < cols ==> #[trigger] layer@[a as int]@[y] == reached(gv, 65, 65, 64, a as int, y),
                b <= cols,
                count == count_row(gv, 65, 65, 64, a as int, b as nat),
                count <= b,
            decreases cols - b,
        {
            if layer[a][b] {
                count = count + 1;
            }
            b = b + 1;
        }
        proof {
            assert(gv[a as int].len() == cols);
            assert(total + count <= (a + 1) * cols) by (nonlinear_arith)
                requires
                    total <= a * cols,
                    count <= cols,
            {
            }
            assert((a + 1) * cols <= rows * cols) by (nonlinear_arith)
                requires
                    a < rows,
            {
            }
        }
        total = total + count;
        a = a + 1;
    }
    Ok(total)
}

proof fn lemma_reached_in_grid(g: Seq<Seq<bool>>, sr: int, sc: int, i: nat)
    ensures
        forall|a: int, b: int| !(0 <= a < g.len() && 0 <= b < g[a].len()) ==> !reached(g, sr, sc, i, a, b),
{
    assert forall|a: int, b: int| !(0 <= a < g.len() && 0 <= b < g[a].len()) implies !reached(g, sr, sc, i, a, b) by {
        if i == 0 {
        } else {
            assert(!is_plot(g, a, b));
        }
    }
}

} // verus!
