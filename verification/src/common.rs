//! Helpers shared by the 2023 puzzles: a row-major grid, line splitting and
//! bulk number parsing.
use vstd::prelude::*;
use crate::text::{find_spec, find_char, parse_i64, parse_int, trim, trimmed, owned, chars_of, nonblank, nonblank_lines, views_of};

verus! {

/// Errors raised by the shared helpers.
pub enum CommonError {
    /// A file could not be opened.
    FileNotFound { path: String },
    /// An item could not be parsed as a number; `line` is the (trimmed) item.
    ParseError { line: String },
    /// Two rows of a grid had different lengths: `got` is the length of the
    /// first row and `expected` the length of the row that differed.
    MismatchedRowsError { got: usize, expected: usize },
    /// A per-cell conversion failed with the given message.
    InnerError { message: String },
}

/// A grid stored row by row in one vector.
pub struct Array2D<T> {
    data: Vec<T>,
    rows: usize,
    cols: usize,
}

impl<T> Array2D<T> {
    /// The stored cells, row by row.
    pub closed spec fn cells(&self) -> Seq<T> {
        self.data@
    }

    /// The bound that `get` checks row indices against.
    pub closed spec fn row_bound(&self) -> nat {
        self.rows as nat
    }

    /// The number of columns.
    pub closed spec fn col_bound(&self) -> nat {
        self.cols as nat
    }

    /// The position in `cells` that `(row, col)` names, when both are in bounds.
    pub open spec fn index_of(&self, row: int, col: int) -> Option<int> {
        if row >= self.row_bound() || col >= self.col_bound() {
            None
        } else {
            Some(row * self.col_bound() + col)
        }
    }

    /// `get` and `get_mut` do not fail on `(row, col)`: when both indices pass
    /// the bound checks, the position they name holds a cell.
    pub open spec fn in_storage(&self, row: int, col: int) -> bool {
        self.index_of(row, col) matches Some(i) ==> i < self.cells().len()
    }

    fn get_index(&self, row: usize, col: usize) -> (r: Option<usize>)
        requires
            self.in_storage(row as int, col as int),
        ensures
            r matches Some(i) ==> self.index_of(row as int, col as int) == Some(i as int),
            r is None ==> self.index_of(row as int, col as int) is None,
    {
        if row >= self.rows || col >= self.cols {
            None
        } else {
            let len = self.data.len();
            proof {
                assert(row * self.cols + col < len);
                assert((row * self.cols) as int <= row * self.cols + col);
            }
            Some(row * self.cols + col)
        }
    }

    /// The cell at `(row, col)`, or `None` when an index is out of bounds.
    pub fn get(&self, row: usize, col: usize) -> (r: Option<&T>)
        requires
            self.in_storage(row as int, col as int),
        ensures
            r matches Some(x) ==> (self.index_of(row as int, col as int) matches Some(i)
                && *x == self.cells()[i]),
            r is None ==> self.index_of(row as int, col as int) is None,
    {
        match self.get_index(row, col) {
            Some(i) => Some(&self.data[i]),
            None => None,
        }
    }

    /// A mutable reference to the cell at `(row, col)`, or `None` when an
    /// index is out of bounds.
    pub fn get_mut(&mut self, row: usize, col: usize) -> (r: Option<&mut T>)
        requires
            old(self).in_storage(row as int, col as int),
        ensures
            old(self).index_of(row as int, col as int) is None ==> r is None && *final(self) == *old(self),
            old(self).index_of(row as int, col as int) matches Some(i) ==> (r matches Some(x) && *x
                == old(self).cells()[i] && final(self).cells() == old(self).cells().update(i, *final(x))
                && final(self).row_bound() == old(self).row_bound()
                && final(self).col_bound() == old(self).col_bound()),
    {
        match self.get_index(row, col) {
            Some(i) => Some(&mut self.data[i]),
            None => None,
        }
    }
}

/// What a write through `get_mut` does to later reads: with the cells and
/// bounds as `get_mut` leaves them after `v` is written at `(row, col)`, a
/// read at `(row, col)` sees `v`, every other read sees what it saw before,
/// and the bound checks of `get` and `get_mut` answer as before everywhere.
pub proof fn lemma_write_then_read<T>(a: Array2D<T>, b: Array2D<T>, row: int, col: int, v: T, p: int, q: int)
    requires
        0 <= row && 0 <= col && 0 <= p && 0 <= q,
        a.in_storage(row, col),
        a.index_of(row, col) matches Some(k) && b.cells() == a.cells().update(k, v),
        b.row_bound() == a.row_bound(),
        b.col_bound() == a.col_bound(),
        a.in_storage(p, q),
    ensures
        b.index_of(p, q) == a.index_of(p, q),
        b.in_storage(p, q),
        b.index_of(p, q) matches Some(m) ==> b.cells()[m] == if p == row && q == col { v } else { a.cells()[m] },
{
    if let Some(m) = a.index_of(p, q) {
        let k = a.index_of(row, col)->0;
        let c = a.col_bound() as int;
        if p != row || q != col {
            if p == row {
                assert(m != k);
            } else if p < row {
                assert(p * c + c <= row * c) by (nonlinear_arith)
                    requires p < row, c >= 0;
                assert(m != k);
            } else {
                assert(row * c + c <= p * c) by (nonlinear_arith)
                    requires row < p, c >= 0;
                assert(m != k);
            }
        }
    }
}

/// The contents of each row, in order.
pub open spec fn row_views<T>(rows: Seq<Vec<T>>) -> Seq<Seq<T>> {
    rows.map_values(|r: Vec<T>| r@)
}

/// The index of the first row whose length differs from that of row 0, if any.
pub open spec fn first_mismatch<T>(rows: Seq<Vec<T>>) -> Option<int> {
    if exists|k: int| 0 <= k < rows.len() && #[trigger] rows[k].len() != rows[0].len()
        && forall|j: int| 0 <= j < k ==> #[trigger] rows[j].len() == rows[0].len() {
        Some(choose|k: int| 0 <= k < rows.len() && #[trigger] rows[k].len() != rows[0].len()
            && forall|j: int| 0 <= j < k ==> #[trigger] rows[j].len() == rows[0].len())
    } else {
        None
    }
}

impl<T> Array2D<T> {
    /// Builds a grid from its rows.
    ///
    /// Fails with `MismatchedRowsError` at the first row whose length differs
    /// from that of the first row. On success the cells are the rows laid end
    /// to end, the column count is the length of the first row (0 without
    /// rows), and the row bound is the number of cells.
    pub fn from_rows(it: Vec<Vec<T>>) -> (r: Result<Self, CommonError>)
        ensures
            first_mismatch(it@) is None ==> (r matches Ok(a) && a.cells() == row_views(it@).flatten()
                && a.row_bound() == a.cells().len()
                && a.col_bound() == (if it@.len() == 0 { 0 } else { it@[0].len() })),
            first_mismatch(it@) matches Some(k) ==> (r matches Err(CommonError::MismatchedRowsError { got, expected })
                && got == it@[0].len() && expected == it@[k].len()),
    {
        let ghost orig = it@;
        let mut rest = it;
        let mut data: Vec<T> = Vec::new();
        let mut cols: Option<usize> = None;
        let n = rest.len();
        let mut i: usize = 0;
        while i < n
            invariant
                n == orig.len(),
                orig == it@,
                i <= n,
                rest@ == orig.skip(i as int),
                data@ == row_views(orig.take(i as int)).flatten(),
                i == 0 ==> cols is None,
                i > 0 ==> cols == Some(orig[0].len()),
                forall|j: int| 0 <= j < i ==> #[trigger] orig[j].len() == orig[0].len(),
            decreases n - i,
        {
            let mut row = rest.remove(0);
            proof {
                assert(row == orig[i as int]);
            }
            match cols {
                Some(c) => {
                    if row.len() != c {
                        proof {
                            assert(orig[i as int].len() != orig[0].len());
                            let k = first_mismatch(orig)->0;
                            assert(0 <= k < orig.len() && orig[k].len() != orig[0].len()
                                && forall|j: int| 0 <= j < k ==> #[trigger] orig[j].len() == orig[0].len());
                            if k < i {
                                assert(orig[k].len() == orig[0].len());
                            }
                            if k > i {
                                assert(orig[i as int].len() == orig[0].len());
                            }
                            assert(first_mismatch(orig) == Some(i as int));
                        }
                        return Err(CommonError::MismatchedRowsError { got: c, expected: row.len() });
                    }
                },
                None => {
                    cols = Some(row.len());
                },
            }
            let ghost before = data@;
            data.append(&mut row);
            proof {
                let rv = row_views(orig.take(i as int));
                assert(row_views(orig.take(i + 1)) =~= rv.push(orig[i as int]@));
                rv.lemma_flatten_push(orig[i as int]@);
                assert(orig.skip(i as int).remove(0) =~= orig.skip(i + 1));
            }
            i = i + 1;
        }
        proof {
            assert(orig.take(n as int) =~= orig);
            if exists|k: int| 0 <= k < orig.len() && #[trigger] orig[k].len() != orig[0].len()
                && forall|j: int| 0 <= j < k ==> #[trigger] orig[j].len() == orig[0].len() {
                let k = choose|k: int| 0 <= k < orig.len() && #[trigger] orig[k].len() != orig[0].len()
                    && forall|j: int| 0 <= j < k ==> #[trigger] orig[j].len() == orig[0].len();
                assert(orig[k].len() == orig[0].len());
            }
        }
        let cols = match cols {
            Some(c) => c,
            None => 0usize,
        };
        let rows = data.len();
        Ok(Array2D { data, rows, cols })
    }
}

/// Splits `s` at the first `c`, dropping the `c`.
pub fn split_on(s: &str, c: char) -> (r: Option<(&str, &str)>)
    ensures
        find_spec(s@, c) is None ==> r is None,
        find_spec(s@, c) matches Some(i) ==> (r matches Some((a, b)) && a@ == s@.take(i) && b@
            == s@.skip(i + 1)),
{
    match find_char(s, c) {
        Some(i) => {
            let n = s.unicode_len();
            Some((s.substring_char(0, i), s.substring_char(i + 1, n)))
        },
        None => None,
    }
}

/// What `parse_all` makes of one item: the item, trimmed, as a decimal `i64`.
pub open spec fn item_value(item: Seq<char>) -> Option<int> {
    parse_int(trimmed(item), true, i64::MIN as int, i64::MAX as int)
}

/// The first item that does not parse, if any.
pub open spec fn first_bad_item(items: Seq<Seq<char>>) -> Option<int> {
    if exists|k: int| 0 <= k < items.len() && #[trigger] item_value(items[k]) is None
        && forall|j: int| 0 <= j < k ==> #[trigger] item_value(items[j]) is Some {
        Some(choose|k: int| 0 <= k < items.len() && #[trigger] item_value(items[k]) is None
            && forall|j: int| 0 <= j < k ==> #[trigger] item_value(items[j]) is Some)
    } else {
        None
    }
}

/// The contents of each string, in order.
pub open spec fn string_views(v: Seq<String>) -> Seq<Seq<char>> {
    v.map_values(|s: String| s@)
}

/// Parses every item, trimmed, as a decimal `i64`.
///
/// Fails with `ParseError` naming the first item that does not parse.
pub fn parse_all(items: &Vec<String>) -> (r: Result<Vec<i64>, CommonError>)
    ensures
        first_bad_item(string_views(items@)) is None ==> (r matches Ok(v) && v@.len() == items@.len()
            && forall|k: int| 0 <= k < v@.len() ==> item_value(#[trigger] string_views(items@)[k]) == Some(v@[k] as int)),
        first_bad_item(string_views(items@)) matches Some(k) ==> (r matches Err(CommonError::ParseError { line })
            && line@ == trimmed(string_views(items@)[k])),
{
    let ghost views = string_views(items@);
    let mut v: Vec<i64> = Vec::new();
    let n = items.len();
    for i in 0..n
        invariant
            n == items@.len(),
            views == string_views(items@),
            v@.len() == i,
            forall|k: int| 0 <= k < i ==> item_value(#[trigger] items@[k]@) == Some(v@[k] as int),
    {
        let part = trim(items[i].as_str());
        match parse_i64(part) {
            Some(x) => {
                v.push(x);
            },
            None => {
                proof {
                    assert(views[i as int] == items@[i as int]@);
                    assert(item_value(views[i as int]) is None);
                    let k = first_bad_item(views)->0;
                    assert(0 <= k < views.len() && item_value(views[k]) is None
                        && forall|j: int| 0 <= j < k ==> #[trigger] item_value(views[j]) is Some);
                    if k < i {
                        assert(views[k] == items@[k]@);
                    }
                    if k > i {
                        assert(item_value(views[i as int]) is Some);
                    }
                }
                return Err(CommonError::ParseError { line: owned(part) });
            },
        }
    }
    proof {
        if exists|k: int| 0 <= k < views.len() && #[trigger] item_value(views[k]) is None
            && forall|j: int| 0 <= j < k ==> #[trigger] item_value(views[j]) is Some {
            let k = choose|k: int| 0 <= k < views.len() && #[trigger] item_value(views[k]) is None
                && forall|j: int| 0 <= j < k ==> #[trigger] item_value(views[j]) is Some;
            assert(views[k] == items@[k]@);
        }
        assert forall|k: int| 0 <= k < v@.len() implies item_value(#[trigger] views[k]) == Some(v@[k] as int) by {
            assert(views[k] == items@[k]@);
        }
    }
    Ok(v)
}

/// `cells` holds, row by row, values that `f` may return as `Ok` for the
/// characters of `lines`.
pub open spec fn converted_by<T, F: Fn(char) -> Result<T, String>>(
    f: F,
    lines: Seq<Seq<char>>,
    cells: Seq<Seq<T>>,
) -> bool {
    &&& cells.len() == lines.len()
    &&& forall|i: int| 0 <= i < lines.len() ==> (#[trigger] cells[i]).len() == lines[i].len()
    &&& forall|i: int, j: int| 0 <= i < lines.len() && 0 <= j < lines[i].len()
        ==> call_ensures(f, (lines[i][j],), Ok::<T, String>(#[trigger] cells[i][j]))
}

/// All lines have the length of the first one.
pub open spec fn uniform_lengths(lines: Seq<Seq<char>>) -> bool {
    forall|i: int| 0 <= i < lines.len() ==> (#[trigger] lines[i]).len() == lines[0].len()
}

/// Every character before position `(i, j)` of `lines`, in row-major order,
/// has a value that `f` may return as `Ok`.
pub open spec fn converts_before<T, F: Fn(char) -> Result<T, String>>(
    f: F,
    lines: Seq<Seq<char>>,
    i: int,
    j: int,
) -> bool {
    forall|k: int, jj: int| 0 <= k <= i && k < lines.len() && 0 <= jj < lines[k].len() && (k < i || jj < j)
        ==> converts(f, #[trigger] lines[k][jj])
}

/// `f` may return `Ok` for `c`.
pub open spec fn converts<T, F: Fn(char) -> Result<T, String>>(f: F, c: char) -> bool {
    exists|x: T| call_ensures(f, (c,), Ok::<T, String>(x))
}

/// Line `k` is the first whose length differs from that of line 0.
pub open spec fn first_uneven(lines: Seq<Seq<char>>, k: int) -> bool {
    &&& 0 <= k < lines.len()
    &&& lines[k].len() != lines[0].len()
    &&& forall|j: int| 0 <= j < k ==> (#[trigger] lines[j]).len() == lines[0].len()
}

/// Builds a grid from the lines that hold more than whitespace, each
/// trimmed, by converting every character with `f`, row by row.
///
/// Fails with `InnerError` carrying the message of the first conversion, in
/// row-major order, that fails; when none fails, with
/// `MismatchedRowsError` at the first line whose length differs from that
/// of the first line.
pub fn read_grid<T, F: Fn(char) -> Result<T, String>>(lines: &Vec<String>, f: F) -> (r: Result<Array2D<T>, CommonError>)
    requires
        forall|c: char| call_requires(f, (c,)),
    ensures
        ({
            let ls = nonblank(string_views(lines@));
            &&& r matches Ok(a) ==> uniform_lengths(ls) && exists|cells: Seq<Seq<T>>| converted_by(f, ls, cells)
                && a.cells() == cells.flatten() && a.row_bound() == a.cells().len()
                && a.col_bound() == (if ls.len() == 0 { 0 } else { ls[0].len() })
            &&& r matches Err(CommonError::InnerError { message }) ==> exists|i: int, j: int|
                0 <= i < ls.len() && 0 <= j < ls[i].len() && converts_before(f, ls, i, j)
                && call_ensures(f, (#[trigger] ls[i][j],), Err::<T, String>(message))
            &&& r matches Err(CommonError::MismatchedRowsError { got, expected }) ==> (exists|cells: Seq<Seq<T>>|
                converted_by(f, ls, cells)) && exists|k: int| first_uneven(ls, k) && got == ls[0].len()
                && expected == (#[trigger] ls[k]).len()
            &&& r matches Err(CommonError::ParseError { .. }) ==> false
            &&& r matches Err(CommonError::FileNotFound { .. }) ==> false
            &&& uniform_lengths(ls) && (forall|c: char, x: Result<T, String>|
                call_ensures(f, (c,), x) ==> x is Ok) ==> r is Ok
        }),
{
    let ls = nonblank_lines(lines);
    let ghost views = string_views(ls@);
    proof {
        assert(string_views(lines@) =~= views_of(lines@));
        assert(views =~= views_of(ls@));
        assert(views == nonblank(string_views(lines@)));
    }
    let mut v: Vec<Vec<T>> = Vec::new();
    let n = ls.len();
    for i in 0..n
        invariant
            n == ls@.len(),
            views == string_views(ls@),
            views == nonblank(string_views(lines@)),
            forall|c: char| call_requires(f, (c,)),
            v@.len() == i,
            forall|k: int| 0 <= k < i ==> (#[trigger] v@[k])@.len() == views[k].len(),
            forall|k: int, j: int| 0 <= k < i && 0 <= j < views[k].len()
                ==> call_ensures(f, (views[k][j],), Ok::<T, String>(#[trigger] v@[k]@[j])),
    {
        let line = chars_of(ls[i].as_str());
        proof {
            assert(views[i as int] == ls@[i as int]@);
        }
        let m = line.len();
        let mut row: Vec<T> = Vec::new();
        for j in 0..m
            invariant
                m == line@.len(),
                i < n,
                n == views.len(),
                v@.len() == i,
                line@ == views[i as int],
                views == nonblank(string_views(lines@)),
                forall|c: char| call_requires(f, (c,)),
                row@.len() == j,
                forall|jj: int| 0 <= jj < j ==> call_ensures(f, (line@[jj],), Ok::<T, String>(#[trigger] row@[jj])),
                forall|k: int| 0 <= k < i ==> (#[trigger] v@[k])@.len() == views[k].len(),
                forall|k: int, jj: int| 0 <= k < i && 0 <= jj < views[k].len()
                    ==> call_ensures(f, (views[k][jj],), Ok::<T, String>(#[trigger] v@[k]@[jj])),
        {
            match f(line[j]) {
                Ok(item) => {
                    row.push(item);
                },
                Err(e) => {
                    proof {
                        assert forall|k: int, jj: int| 0 <= k <= i && k < views.len() && 0 <= jj < views[k].len()
                            && (k < i || jj < j) implies converts(f, #[trigger] views[k][jj]) by {
                            if k < i {
                                assert(call_ensures(f, (views[k][jj],), Ok::<T, String>(v@[k]@[jj])));
                            } else {
                                assert(call_ensures(f, (line@[jj],), Ok::<T, String>(row@[jj])));
                            }
                        }
                        assert(converts_before(f, views, i as int, j as int));
                        assert(call_ensures(f, (views[i as int][j as int],), Err::<T, String>(e)));
                    }
                    return Err(CommonError::InnerError { message: e });
                },
            }
        }
        v.push(row);
    }
    let ghost cells = row_views(v@);
    proof {
        assert forall|k: int| 0 <= k < n implies #[trigger] v@[k]@.len() == views[k].len() by {}
        assert(converted_by(f, views, cells));
    }
    let ghost vv = v@;
    let r = Array2D::from_rows(v);
    match r {
        Ok(a) => {
            proof {
                assert forall|k: int| 0 <= k < views.len() implies (#[trigger] views[k]).len() == views[0].len() by {
                    assert(vv[k]@.len() == views[k].len());
                    assert(vv[0]@.len() == views[0].len());
                    if vv[k].len() != vv[0].len() {
                        lemma_first_mismatch_exists(vv, k);
                    }
                }
            }
            Ok(a)
        },
        Err(e) => {
            proof {
                assert(first_mismatch(vv) is Some);
                let k = first_mismatch(vv)->0;
                assert(0 <= k < vv.len() && vv[k].len() != vv[0].len());
                assert(vv[k]@.len() == views[k].len());
                assert(vv[0]@.len() == views[0].len());
                assert forall|j: int| 0 <= j < k implies (#[trigger] views[j]).len() == views[0].len() by {
                    assert(vv[j]@.len() == views[j].len());
                    assert(vv[j].len() == vv[0].len());
                }
                assert(first_uneven(views, k));
            }
            Err(e)
        },
    }
}

/// A row whose length differs from that of row 0 means there is a first one.
proof fn lemma_first_mismatch_exists<T>(rows: Seq<Vec<T>>, k: int)
    requires
        0 <= k < rows.len(),
        rows[k].len() != rows[0].len(),
    ensures
        first_mismatch(rows) is Some,
    decreases k,
{
    if exists|j: int| 0 <= j < k && #[trigger] rows[j].len() != rows[0].len() {
        let j = choose|j: int| 0 <= j < k && #[trigger] rows[j].len() != rows[0].len();
        lemma_first_mismatch_exists(rows, j);
    } else {
        assert(forall|j: int| 0 <= j < k ==> #[trigger] rows[j].len() == rows[0].len());
    }
}

/// Bulk parsing for collections of strings.
pub trait StrIterator {
    /// The contents of the strings, in order.
    spec fn items(&self) -> Seq<Seq<char>>;

    /// Parses every string, trimmed, as a decimal `i64`; fails with
    /// `ParseError` naming the first one that does not parse.
    fn parse_all(&self) -> (r: Result<Vec<i64>, CommonError>)
        ensures
            first_bad_item(self.items()) is None ==> (r matches Ok(v) && v@.len() == self.items().len()
                && forall|k: int| 0 <= k < v@.len() ==> item_value(#[trigger] self.items()[k]) == Some(v@[k] as int)),
            first_bad_item(self.items()) matches Some(k) ==> (r matches Err(CommonError::ParseError { line })
                && line@ == trimmed(self.items()[k])),
    ;
}

impl StrIterator for Vec<String> {
    open spec fn items(&self) -> Seq<Seq<char>> {
        string_views(self@)
    }

    fn parse_all(&self) -> (r: Result<Vec<i64>, CommonError>) {
        parse_all(self)
    }
}

} // verus!
