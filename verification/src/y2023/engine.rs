//! Gear ratios: numbers on an engine schematic, and the symbols (parts)
//! next to them.
use vstd::prelude::*;
use crate::text::{chars_of, nonblank, nonblank_lines, views_of};

verus! {

/// Errors of this puzzle.
pub enum Error {
    /// A digit had no value.
    InvalidDigit(char),
}

/// Where a number is: its row, the columns `[col_start, col_end)` it
/// covers, and its value.
pub struct NumLoc {
    pub row: i32,
    pub col_start: i32,
    pub col_end: i32,
    pub num: i32,
}

/// Where a part (a symbol other than `.`) is.
pub struct PartLoc {
    pub row: i32,
    pub col: i32,
}

/// A number's location as plain values.
pub struct NumView {
    pub row: int,
    pub start: int,
    pub end: int,
    pub num: int,
}

/// The plain values of a number's location.
pub open spec fn num_view(n: NumLoc) -> NumView {
    NumView { row: n.row as int, start: n.col_start as int, end: n.col_end as int, num: n.num as int }
}

/// The plain values of a part's location.
pub open spec fn part_view(p: PartLoc) -> (int, int) {
    (p.row as int, p.col as int)
}

/// The numbers and the parts of a schematic.
pub struct Board {
    pub nums: Vec<NumLoc>,
    pub parts: Vec<PartLoc>,
}

impl Board {
    /// The numbers, as plain values.
    pub open spec fn num_views(&self) -> Seq<NumView> {
        self.nums@.map_values(|n: NumLoc| num_view(n))
    }

    /// The parts, as plain values.
    pub open spec fn part_views(&self) -> Seq<(int, int)> {
        self.parts@.map_values(|p: PartLoc| part_view(p))
    }
}

/// `c` is an ASCII digit.
pub open spec fn is_digit(c: char) -> bool {
    '0' <= c && c <= '9'
}

/// The number of bytes of `c` in UTF-8.
pub open spec fn utf8_len(c: char) -> int {
    if (c as u32) < 0x80 {
        1
    } else if (c as u32) < 0x800 {
        2
    } else if (c as u32) < 0x10000 {
        3
    } else {
        4
    }
}

/// The byte offset of character `i` of `l`.
pub open spec fn offset(l: Seq<char>, i: int) -> int
    decreases i,
{
    if i <= 0 {
        0
    } else {
        offset(l, i - 1) + utf8_len(l[i - 1])
    }
}

/// The state after reading the first `i` characters of line `l` (row
/// `row`) from the left: the numbers ended so far, the number being read,
/// and the parts found, each located by byte column.
pub open spec fn scan(l: Seq<char>, row: int, i: nat) -> (Seq<NumView>, Option<NumView>, Seq<(int, int)>)
    decreases i,
{
    if i == 0 {
        (Seq::empty(), None, Seq::empty())
    } else {
        let (ns, cur, ps) = scan(l, row, (i - 1) as nat);
        let c = l[i - 1];
        let col = offset(l, i - 1);
        if is_digit(c) {
            let base = match cur {
                Some(n) => n,
                None => NumView { row, start: col, end: col + 1, num: 0 },
            };
            (ns, Some(NumView { num: base.num * 10 + (c as int - '0' as int), end: col + 1, ..base }), ps)
        } else {
            let ns2 = match cur {
                Some(n) => ns.push(n),
                None => ns,
            };
            (ns2, None, if c != '.' { ps.push((row, col)) } else { ps })
        }
    }
}

/// The numbers and the parts of line `l` at row `row`.
pub open spec fn line_items(l: Seq<char>, row: int) -> (Seq<NumView>, Seq<(int, int)>) {
    let (ns, cur, ps) = scan(l, row, l.len());
    (
        match cur {
            Some(n) => ns.push(n),
            None => ns,
        },
        ps,
    )
}

/// Every number that line `l` holds fits in an `i32`, and so do its byte
/// columns.
pub open spec fn line_fits(l: Seq<char>) -> bool {
    &&& offset(l, l.len() as int) < i32::MAX
    &&& forall|i: int| 0 <= i <= l.len() ==> ((#[trigger] scan(l, 0, i as nat)).1 matches Some(n) ==> n.num <= i32::MAX)
}

proof fn lemma_offset(l: Seq<char>, i: int, j: int)
    requires
        0 <= i <= j <= l.len(),
    ensures
        0 <= offset(l, i) <= offset(l, j),
        i < j ==> offset(l, i) < offset(l, j),
    decreases j,
{
    if j > 0 && i < j {
        lemma_offset(l, i, j - 1);
    } else {
        lemma_offset_nonneg(l, i);
    }
}

proof fn lemma_offset_nonneg(l: Seq<char>, i: int)
    ensures
        0 <= offset(l, i),
    decreases i,
{
    if i > 0 {
        lemma_offset_nonneg(l, i - 1);
    }
}

proof fn lemma_scan_row(l: Seq<char>, row: int, i: nat)
    requires
        i <= l.len(),
    ensures
        scan(l, row, i).1 matches Some(n) ==> n.num == scan(l, 0, i).1->0.num && n.row == row,
        scan(l, row, i).1 is Some <==> scan(l, 0, i).1 is Some,
        scan(l, row, i).1 matches Some(n) ==> 0 <= n.num && 0 <= n.start < n.end <= offset(l, i as int),
        forall|k: int| 0 <= k < scan(l, row, i).0.len() ==> #[trigger] scan(l, row, i).0[k].row == row && 0
            <= scan(l, row, i).0[k].num && 0 <= scan(l, row, i).0[k].start < scan(l, row, i).0[k].end <= offset(
            l,
            i as int,
        ),
        forall|k: int| 0 <= k < scan(l, row, i).2.len() ==> (#[trigger] scan(l, row, i).2[k]).0 == row && 0
            <= scan(l, row, i).2[k].1 < offset(l, i as int),
    decreases i,
{
    if i > 0 {
        lemma_scan_row(l, row, (i - 1) as nat);
        lemma_offset(l, 0, i - 1);
        lemma_offset(l, i - 1, i as int);
        let prev = scan(l, row, (i - 1) as nat);
        let cur = scan(l, row, i);
        assert forall|k: int| 0 <= k < cur.0.len() implies #[trigger] cur.0[k].row == row && 0 <= cur.0[k].num && 0
            <= cur.0[k].start < cur.0[k].end <= offset(l, i as int) by {
            if k < prev.0.len() {
                assert(cur.0[k] == prev.0[k]);
                assert(prev.0[k].row == row);
            } else {
                assert(prev.1 is Some);
                assert(cur.0[k] == prev.1->0);
            }
        }
        assert forall|k: int| 0 <= k < cur.2.len() implies (#[trigger] cur.2[k]).0 == row && 0 <= cur.2[k].1 < offset(
            l,
            i as int,
        ) by {
            if k < prev.2.len() {
                assert(cur.2[k] == prev.2[k]);
                assert(prev.2[k].0 == row);
            }
        }
    }
}

impl Board {
    /// An empty schematic.
    pub fn new() -> (r: Board)
        ensures
            r.nums@.len() == 0,
            r.parts@.len() == 0,
    {
        Board { nums: Vec::new(), parts: Vec::new() }
    }

    /// Adds the numbers and the parts of line `line`, at row `row`.
    pub fn add_nums_and_parts(&mut self, row: i32, line: &str) -> (r: Result<(), Error>)
        requires
            line_fits(line@),
        ensures
            r is Ok,
            final(self).num_views() == old(self).num_views() + line_items(line@, row as int).0,
            final(self).part_views() == old(self).part_views() + line_items(line@, row as int).1,
    {
        let ghost l = line@;
        let ghost ns0 = self.num_views();
        let ghost ps0 = self.part_views();
        let cs = chars_of(line);
        let n = cs.len();
        let mut current: Option<NumLoc> = None;
        let mut col: usize = 0;
        for i in 0..n
            invariant
                n == l.len(),
                cs@ == l,
                line_fits(l),
                col == offset(l, i as int),
                ({
                    let (ns, cur, ps) = scan(l, row as int, i as nat);
                    &&& self.num_views() == ns0 + ns
                    &&& self.part_views() == ps0 + ps
                    &&& match current {
                        Some(c) => cur == Some(num_view(c)),
                        None => cur is None,
                    }
                }),
        {
            let c = cs[i];
            proof {
                lemma_offset(l, i as int, n as int);
                lemma_offset(l, i as int, i + 1);
                lemma_scan_row(l, row as int, (i + 1) as nat);
                assert(scan(l, 0, (i + 1) as nat).1 matches Some(m) ==> m.num <= i32::MAX);
            }
            let ghost before_n = self.num_views();
            let ghost before_p = self.part_views();
            if '0' <= c && c <= '9' {
                let d = (c as u32 - '0' as u32) as i32;
                let base = match current {
                    Some(cn) => cn,
                    None => NumLoc { row, col_start: col as i32, col_end: (col + 1) as i32, num: 0 },
                };
                current = Some(NumLoc { row: base.row, col_start: base.col_start, col_end: (col + 1) as i32, num: base.num * 10 + d });
            } else {
                match current {
                    Some(cn) => {
                        self.nums.push(cn);
                        proof {
                            assert(self.num_views() =~= before_n.push(num_view(cn)));
                        }
                    },
                    None => {},
                }
                current = None;
                if c != '.' {
                    self.parts.push(PartLoc { row, col: col as i32 });
                    proof {
                        assert(self.part_views() =~= before_p.push((row as int, col as int)));
                    }
                }
            }
            proof {
                let (ns, cur, ps) = scan(l, row as int, i as nat);
                assert(ns0 + ns.push(ns.last()) == (ns0 + ns).push(ns.last())) by {
                    assert(ns0 + ns.push(ns.last()) =~= (ns0 + ns).push(ns.last()));
                }
                if let Some(cn) = cur {
                    assert(ns0 + ns.push(cn) =~= (ns0 + ns).push(cn));
                }
                assert(ps0 + ps.push((row as int, col as int)) =~= (ps0 + ps).push((row as int, col as int)));
            }
            col = col + char_width(c);
        }
        match current {
            Some(cn) => {
                let ghost before_n = self.num_views();
                self.nums.push(cn);
                proof {
                    assert(self.num_views() =~= before_n.push(num_view(cn)));
                    let (ns, cur, ps) = scan(l, row as int, n as nat);
                    assert(ns0 + ns.push(num_view(cn)) =~= (ns0 + ns).push(num_view(cn)));
                }
            },
            None => {},
        }
        Ok(())
    }
}

/// The number of bytes of `c` in UTF-8.
fn char_width(c: char) -> (r: usize)
    ensures
        r == utf8_len(c),
{
    let u = c as u32;
    if u < 0x80 {
        1
    } else if u < 0x800 {
        2
    } else if u < 0x10000 {
        3
    } else {
        4
    }
}

/// A part at `p` is next to number `n`: from the row above to the row
/// below, and from the column before its first to the column after its
/// last.
pub open spec fn adjacent(n: NumView, p: (int, int)) -> bool {
    n.row - 1 <= p.0 <= n.row + 1 && n.start - 1 <= p.1 < n.end + 1
}

/// Some part of `ps` is next to `n`.
pub open spec fn near(ps: Seq<(int, int)>, n: NumView) -> bool {
    exists|k: int| 0 <= k < ps.len() && adjacent(n, #[trigger] ps[k])
}

/// The sum of the first `k` numbers of `ns` that have a part next to them.
pub open spec fn near_sum(ns: Seq<NumView>, ps: Seq<(int, int)>, k: nat) -> int
    decreases k,
{
    if k == 0 {
        0
    } else {
        near_sum(ns, ps, (k - 1) as nat) + if near(ps, ns[k - 1]) { ns[k - 1].num } else { 0 }
    }
}

/// Every number has room around it within `i32`.
pub open spec fn locs_ok(ns: Seq<NumView>) -> bool {
    forall|k: int| 0 <= k < ns.len() ==> i32::MIN < (#[trigger] ns[k]).row < i32::MAX && i32::MIN < ns[k].start
        && ns[k].end < i32::MAX
}

impl Board {
    /// Whether a part sits at `(row, col)`.
    fn has_part(&self, row: i32, col: i32) -> (r: bool)
        ensures
            r == self.part_views().contains((row as int, col as int)),
    {
        let n = self.parts.len();
        for k in 0..n
            invariant
                n == self.parts@.len(),
                forall|j: int| 0 <= j < k ==> self.part_views()[j] != (row as int, col as int),
        {
            if self.parts[k].row == row && self.parts[k].col == col {
                proof {
                    assert(self.part_views()[k as int] == (row as int, col as int));
                }
                return true;
            }
        }
        false
    }

    /// Whether a part is next to the number.
    pub fn is_num_near_part(&self, num: &NumLoc) -> (r: bool)
        requires
            locs_ok(seq![num_view(*num)]),
        ensures
            r == near(self.part_views(), num_view(*num)),
    {
        let ghost nv = num_view(*num);
        let ghost ps = self.part_views();
        proof {
            assert(locs_ok(seq![nv]) ==> i32::MIN < seq![nv][0].row < i32::MAX);
            assert(seq![nv][0] == nv);
        }
        let mut dr: i32 = 0;
        while dr < 3
            invariant
                nv == num_view(*num),
                ps == self.part_views(),
                i32::MIN < num.row < i32::MAX,
                i32::MIN < num.col_start && num.col_end < i32::MAX,
                0 <= dr <= 3,
                forall|p: (int, int)| adjacent(nv, p) && p.0 < num.row - 1 + dr ==> !ps.contains(p),
            decreases 3 - dr,
        {
            let row = num.row - 1 + dr;
            let mut col = num.col_start - 1;
            while col < num.col_end + 1
                invariant
                    nv == num_view(*num),
                    ps == self.part_views(),
                    i32::MIN < num.row < i32::MAX,
                    i32::MIN < num.col_start && num.col_end < i32::MAX,
                    num.row - 1 <= row <= num.row + 1,
                    num.col_start - 1 <= col,
                    col <= num.col_end + 1 || col == num.col_start - 1,
                    forall|p: (int, int)| adjacent(nv, p) && p.0 < row ==> !ps.contains(p),
                    forall|p: (int, int)| adjacent(nv, p) && p.0 == row && p.1 < col ==> !ps.contains(p),
                decreases num.col_end + 1 - col,
            {
                if self.has_part(row, col) {
                    proof {
                        let k = choose|k: int| 0 <= k < ps.len() && ps[k] == (row as int, col as int);
                        assert(adjacent(nv, ps[k]));
                    }
                    return true;
                }
                col = col + 1;
            }
            dr = dr + 1;
        }
        proof {
            if near(ps, nv) {
                let k = choose|k: int| 0 <= k < ps.len() && adjacent(nv, #[trigger] ps[k]);
                assert(ps.contains(ps[k]));
            }
        }
        false
    }

    /// The sum of the numbers that have a part next to them.
    pub fn part1(&self) -> (r: i32)
        requires
            locs_ok(self.num_views()),
            forall|k: nat| k <= self.nums@.len() ==> i32::MIN <= #[trigger] near_sum(self.num_views(), self.part_views(), k)
                <= i32::MAX,
        ensures
            r == near_sum(self.num_views(), self.part_views(), self.nums@.len() as nat),
    {
        let ghost ns = self.num_views();
        let ghost ps = self.part_views();
        let mut ans: i32 = 0;
        let n = self.nums.len();
        for k in 0..n
            invariant
                n == self.nums@.len(),
                ns == self.num_views(),
                ps == self.part_views(),
                locs_ok(ns),
                forall|j: nat| j <= n ==> i32::MIN <= #[trigger] near_sum(ns, ps, j) <= i32::MAX,
                ans == near_sum(ns, ps, k as nat),
        {
            proof {
                assert(ns[k as int] == num_view(self.nums@[k as int]));
                assert(locs_ok(seq![ns[k as int]])) by {
                    assert(seq![ns[k as int]][0] == ns[k as int]);
                }
                assert(i32::MIN <= near_sum(ns, ps, (k + 1) as nat) <= i32::MAX);
            }
            if self.is_num_near_part(&self.nums[k]) {
                ans = ans + self.nums[k].num;
            }
        }
        ans
    }
}

/// The numbers and the parts of the lines, row after row, the `i`-th line
/// being row `i`.
pub open spec fn board_items(ls: Seq<Seq<char>>) -> (Seq<NumView>, Seq<(int, int)>)
    decreases ls.len(),
{
    if ls.len() == 0 {
        (Seq::empty(), Seq::empty())
    } else {
        let (ns, ps) = board_items(ls.drop_last());
        let (ln, lp) = line_items(ls.last(), ls.len() - 1);
        (ns + ln, ps + lp)
    }
}

/// Reads a schematic: the lines are trimmed, blank ones skipped, and the
/// others numbered from row zero.
pub fn read_input(lines: &Vec<String>) -> (r: Board)
    requires
        nonblank(views_of(lines@)).len() < i32::MAX,
        forall|i: int| 0 <= i < nonblank(views_of(lines@)).len() ==> line_fits(#[trigger] nonblank(views_of(lines@))[i]),
    ensures
        (r.num_views(), r.part_views()) == board_items(nonblank(views_of(lines@))),
        locs_ok(r.num_views()),
{
    let ls = nonblank_lines(lines);
    let ghost v = nonblank(views_of(lines@));
    let mut board = Board::new();
    let n = ls.len();
    proof {
        assert(views_of(ls@) == v);
        assert(v.take(0) =~= Seq::<Seq<char>>::empty());
        assert(board.num_views() =~= Seq::<NumView>::empty());
        assert(board.part_views() =~= Seq::<(int, int)>::empty());
    }
    for i in 0..n
        invariant
            n == ls@.len(),
            views_of(ls@) == v,
            v.len() == n,
            n < i32::MAX,
            forall|j: int| 0 <= j < v.len() ==> line_fits(#[trigger] v[j]),
            (board.num_views(), board.part_views()) == board_items(v.take(i as int)),
            forall|k: int| 0 <= k < board.num_views().len() ==> 0 <= (#[trigger] board.num_views()[k]).row < i
                && 0 <= board.num_views()[k].start && board.num_views()[k].end < i32::MAX,
    {
        let ghost before = board.num_views();
        proof {
            assert(v[i as int] == ls@[i as int]@);
            assert(line_fits(v[i as int]));
            assert(v.take(i + 1).drop_last() =~= v.take(i as int));
            assert(v.take(i + 1).last() == v[i as int]);
            lemma_scan_row(v[i as int], i as int, v[i as int].len());
            lemma_offset(v[i as int], 0, v[i as int].len() as int);
        }
        let _ = board.add_nums_and_parts(i as i32, ls[i].as_str());
        proof {
            let l = v[i as int];
            let (ns, cur, ps) = scan(l, i as int, l.len());
            let items = line_items(l, i as int).0;
            assert forall|k: int| 0 <= k < board.num_views().len() implies 0 <= (#[trigger] board.num_views()[k]).row
                < i + 1 && 0 <= board.num_views()[k].start && board.num_views()[k].end < i32::MAX by {
                if k < before.len() {
                    assert(board.num_views()[k] == before[k]);
                } else {
                    assert(board.num_views()[k] == items[k - before.len()]);
                    if k - before.len() < ns.len() {
                        assert(items[k - before.len()] == ns[k - before.len()]);
                    }
                }
            }
        }
    }
    proof {
        assert(v.take(n as int) =~= v);
    }
    board
}

/// Reads the schematic and sums the numbers that have a part next to them.
pub fn process(lines: &Vec<String>) -> (r: i32)
    requires
        nonblank(views_of(lines@)).len() < i32::MAX,
        forall|i: int| 0 <= i < nonblank(views_of(lines@)).len() ==> line_fits(#[trigger] nonblank(views_of(lines@))[i]),
        forall|k: nat| k <= board_items(nonblank(views_of(lines@))).0.len() ==> i32::MIN <= #[trigger] near_sum(
            board_items(nonblank(views_of(lines@))).0,
            board_items(nonblank(views_of(lines@))).1,
            k,
        ) <= i32::MAX,
    ensures
        ({
            let (ns, ps) = board_items(nonblank(views_of(lines@)));
            r == near_sum(ns, ps, ns.len() as nat)
        }),
{
    let board = read_input(lines);
    proof {
        let bi = board_items(nonblank(views_of(lines@)));
        assert(board.num_views() == bi.0 && board.part_views() == bi.1);
        assert(board.num_views().len() == board.nums@.len());
    }
    board.part1()
}

} // verus!
