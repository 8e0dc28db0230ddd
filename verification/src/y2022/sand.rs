//! Regolith reservoir: rock paths in a cave; sand pours from (500, 0) one
//! grain at a time, falling down, down-left or down-right until it rests.
use vstd::prelude::*;
use std::collections::HashMap;
use crate::common::split_on;
use crate::text::{find_spec, nonblank, nonblank_lines, owned, parse_int, parse_usize, split_spec, split_str, views_of};

verus! {

/// Errors of this puzzle.
pub enum Error {
    /// A point without a comma; the text is the point.
    ExpectedComma(String),
    /// A coordinate that is not a number; the text is the coordinate.
    InvalidNumber(String),
}

/// What a spot of the cave holds.
#[derive(Clone, Copy, PartialEq, Eq, Structural)]
pub enum Tile {
    Empty,
    Sand,
    Rock,
}

/// The cave: the extent of the rock paths, and the tiles that were set,
/// keyed by position; every other spot is empty.
pub struct Cave {
    pub min_x: usize,
    pub min_y: usize,
    pub max_x: usize,
    pub max_y: usize,
    pub tiles: HashMap<u128, Tile>,
}

/// The mathematical view of the cave.
pub struct SandView {
    pub max_y: int,
    pub tiles: Map<u128, Tile>,
}

impl Cave {
    pub open spec fn view(&self) -> SandView {
        SandView { max_y: self.max_y as int, tiles: self.tiles@ }
    }

    /// A grain can fall from (500, 0) to below the lowest rock without a
    /// coordinate leaving `usize`.
    pub open spec fn room(&self) -> bool {
        self.max_y + 502 <= usize::MAX
    }
}

/// The key of spot `(x, y)`: `x` in the high 64 bits, `y` in the low.
pub open spec fn key(x: int, y: int) -> u128 {
    (x * 0x1_0000_0000_0000_0000 + y) as u128
}

/// `(x, y)` is a spot of the cave: both coordinates are `usize`s.
pub open spec fn in_grid(x: int, y: int) -> bool {
    0 <= x <= usize::MAX && 0 <= y <= usize::MAX
}

/// The tile at `(x, y)`.
pub open spec fn tile(v: SandView, x: int, y: int) -> Tile {
    if in_grid(x, y) && v.tiles.contains_key(key(x, y)) {
        v.tiles[key(x, y)]
    } else {
        Tile::Empty
    }
}

/// The cave with `(x, y)` holding `t`.
pub open spec fn with_tile(v: SandView, x: int, y: int, t: Tile) -> SandView {
    SandView { tiles: v.tiles.insert(key(x, y), t), ..v }
}

proof fn lemma_key(x: int, y: int, a: int, b: int)
    requires
        in_grid(x, y),
        in_grid(a, b),
    ensures
        0 <= x * 0x1_0000_0000_0000_0000 + y <= u128::MAX,
        key(x, y) as int == x * 0x1_0000_0000_0000_0000 + y,
        key(x, y) == key(a, b) ==> x == a && y == b,
{
    assert(0 <= x * 0x1_0000_0000_0000_0000 + y <= u128::MAX) by (nonlinear_arith)
        requires
            0 <= x <= usize::MAX,
            0 <= y <= usize::MAX,
    ;
    assert(0 <= a * 0x1_0000_0000_0000_0000 + b <= u128::MAX) by (nonlinear_arith)
        requires
            0 <= a <= usize::MAX,
            0 <= b <= usize::MAX,
    ;
    if x < a {
        assert(x * 0x1_0000_0000_0000_0000 + y < a * 0x1_0000_0000_0000_0000 + b) by (nonlinear_arith)
            requires
                x < a,
                0 <= y <= usize::MAX,
                0 <= b,
        ;
    } else if a < x {
        assert(a * 0x1_0000_0000_0000_0000 + b < x * 0x1_0000_0000_0000_0000 + y) by (nonlinear_arith)
            requires
                a < x,
                0 <= b <= usize::MAX,
                0 <= y,
        ;
    }
}

/// The key of `(x, y)`, computed.
fn key_of(x: usize, y: usize) -> (r: u128)
    ensures
        r == key(x as int, y as int),
{
    proof {
        lemma_key(x as int, y as int, x as int, y as int);
    }
    (x as u128) * 0x1_0000_0000_0000_0000 + (y as u128)
}

impl Cave {
    /// An empty cave for rock paths within `min_x ..= max_x` and
    /// `min_y ..= max_y`.
    pub fn new(min_x: usize, min_y: usize, max_x: usize, max_y: usize) -> (r: Cave)
        ensures
            r.min_x == min_x,
            r.min_y == min_y,
            r.max_x == max_x,
            r.max_y == max_y,
            r@.max_y == max_y,
            forall|x: int, y: int| #[trigger] tile(r@, x, y) == Tile::Empty,
    {
        Cave { min_x, min_y, max_x, max_y, tiles: HashMap::new() }
    }

    /// The tile at `(x, y)`.
    pub fn get(&self, x: usize, y: usize) -> (r: Tile)
        ensures
            r == tile(self@, x as int, y as int),
    {
        let k = key_of(x, y);
        match self.tiles.get(&k) {
            Some(t) => *t,
            None => Tile::Empty,
        }
    }

    /// Puts `t` at `(x, y)`.
    pub fn set(&mut self, x: usize, y: usize, t: Tile)
        ensures
            final(self)@ == with_tile(old(self)@, x as int, y as int, t),
            final(self).min_x == old(self).min_x,
            final(self).min_y == old(self).min_y,
            final(self).max_x == old(self).max_x,
            final(self).max_y == old(self).max_y,
    {
        let k = key_of(x, y);
        self.tiles.insert(k, t);
    }
}

/// Setting a spot changes that spot only.
pub proof fn lemma_with_tile(v: SandView, x: int, y: int, t: Tile)
    requires
        in_grid(x, y),
    ensures
        forall|a: int, b: int|
            #[trigger] tile(with_tile(v, x, y, t), a, b) == if a == x && b == y {
                t
            } else {
                tile(v, a, b)
            },
{
    let w = with_tile(v, x, y, t);
    assert forall|a: int, b: int| #[trigger] tile(w, a, b) == if a == x && b == y {
        t
    } else {
        tile(v, a, b)
    } by {
        if in_grid(a, b) {
            lemma_key(x, y, a, b);
        }
    }
}

/// Whether a spot is free for a grain.
pub open spec fn free(v: SandView, x: int, y: int) -> bool {
    tile(v, x, y) == Tile::Empty
}

/// Where a grain at `(x, y)` comes to rest: straight down, else down-left,
/// else down-right while it can; below the lowest rock it is past
/// everything. `None` where it would step left of column zero.
pub open spec fn landing(v: SandView, x: int, y: int) -> Option<(int, int)>
    decreases v.max_y + 1 - y,
{
    if y > v.max_y {
        Some((x, y))
    } else if free(v, x, y + 1) {
        landing(v, x, y + 1)
    } else if x <= 0 {
        None
    } else if free(v, x - 1, y + 1) {
        landing(v, x - 1, y + 1)
    } else if free(v, x + 1, y + 1) {
        landing(v, x + 1, y + 1)
    } else {
        Some((x, y))
    }
}

/// A grain moves one column at most for each row it falls, and stops at
/// the latest just below the lowest rock.
pub proof fn lemma_landing_near(v: SandView, x: int, y: int)
    requires
        0 <= y <= v.max_y + 1,
    ensures
        landing(v, x, y) matches Some(p) ==> y <= p.1 <= v.max_y + 1 && x - (p.1 - y) <= p.0 <= x + (p.1 - y),
    decreases v.max_y + 1 - y,
{
    if y <= v.max_y {
        if free(v, x, y + 1) {
            lemma_landing_near(v, x, y + 1);
        } else if x > 0 && free(v, x - 1, y + 1) {
            lemma_landing_near(v, x - 1, y + 1);
        } else if x > 0 && free(v, x + 1, y + 1) {
            lemma_landing_near(v, x + 1, y + 1);
        }
    }
}

/// The cave after one more grain, and whether pouring goes on: in part two
/// a grain below the rocks rests on the floor, and pouring stops once the
/// source is covered; in part one it stops when a grain falls past the
/// rocks.
pub open spec fn drop_spec(v: SandView, part2: bool) -> Option<(SandView, bool)> {
    match landing(v, 500, 0) {
        None => None,
        Some((x, y)) => if y > v.max_y {
            if part2 {
                Some((with_tile(v, x, y, Tile::Sand), true))
            } else {
                Some((v, false))
            }
        } else {
            Some((with_tile(v, x, y, Tile::Sand), !(part2 && x == 500 && y == 0)))
        },
    }
}

impl Cave {
    /// Drops one grain from (500, 0); whether pouring goes on.
    pub fn drop_sand(&mut self, part2: bool) -> (r: bool)
        requires
            old(self).room(),
            drop_spec(old(self)@, part2) is Some,
        ensures
            final(self).room(),
            drop_spec(old(self)@, part2) == Some((final(self)@, r)),
            final(self).max_y == old(self).max_y,
            final(self).max_x == old(self).max_x,
            final(self).min_x == old(self).min_x,
            final(self).min_y == old(self).min_y,
    {
        let ghost v = self@;
        let ghost old_cave = *self;
        let mut sx: usize = 500;
        let mut sy: usize = 0;
        proof {
            lemma_landing_near(v, 500, 0);
        }
        loop
            invariant
                self.room(),
                self@ == v,
                v == old_cave@,
                v == old(self)@,
                old(self).max_y == old_cave.max_y,
                old(self).max_x == old_cave.max_x,
                old(self).min_x == old_cave.min_x,
                old(self).min_y == old_cave.min_y,
                drop_spec(v, part2) is Some,
                self.max_y == old_cave.max_y,
                self.max_x == old_cave.max_x,
                self.min_x == old_cave.min_x,
                self.min_y == old_cave.min_y,
                sy <= self.max_y + 1,
                500 - sy <= sx <= 500 + sy,
                landing(v, sx as int, sy as int) == landing(v, 500, 0),
            decreases self.max_y + 1 - sy,
        {
            if sy > self.max_y {
                assert(landing(v, sx as int, sy as int) == Some((sx as int, sy as int)));
                if part2 {
                    self.set(sx, sy, Tile::Sand);
                    assert(self@ == with_tile(v, sx as int, sy as int, Tile::Sand));
                    assert(drop_spec(v, part2) == Some((self@, true)));
                    return true;
                } else {
                    assert(drop_spec(v, part2) == Some((self@, false)));
                    return false;
                }
            }
            if self.get(sx, sy + 1) == Tile::Empty {
                sy = sy + 1;
                continue;
            }
            if sx == 0 {
                return false;
            }
            if self.get(sx - 1, sy + 1) == Tile::Empty {
                sx = sx - 1;
                sy = sy + 1;
                continue;
            }
            if self.get(sx + 1, sy + 1) == Tile::Empty {
                sx = sx + 1;
                sy = sy + 1;
                continue;
            }
            self.set(sx, sy, Tile::Sand);
            if part2 && sx == 500 && sy == 0 {
                return false;
            }
            return true;
        }
    }
}

/// How many grains come to rest before pouring stops, dropping at most
/// `fuel` grains; `None` where a grain steps left of column zero or the
/// pouring goes on longer.
pub open spec fn pour(v: SandView, part2: bool, fuel: nat) -> Option<nat>
    decreases fuel,
{
    if fuel == 0 {
        None
    } else {
        match drop_spec(v, part2) {
            None => None,
            Some((v2, more)) => if more {
                match pour(v2, part2, (fuel - 1) as nat) {
                    None => None,
                    Some(c) => Some(c + 1),
                }
            } else {
                Some(0)
            },
        }
    }
}

proof fn lemma_pour_bound(v: SandView, part2: bool, fuel: nat)
    ensures
        pour(v, part2, fuel) matches Some(c) ==> c < fuel,
    decreases fuel,
{
    if fuel > 0 {
        if let Some((v2, more)) = drop_spec(v, part2) {
            lemma_pour_bound(v2, part2, (fuel - 1) as nat);
        }
    }
}

/// Pours sand, dropping at most `fuel` grains, and returns how many come
/// to rest; in part two the grain that covers the source counts too.
pub fn process(cave: Cave, part2: bool, fuel: u64) -> (r: u64)
    requires
        cave.room(),
        pour(cave@, part2, fuel as nat) is Some,
    ensures
        r == pour(cave@, part2, fuel as nat)->0 + if part2 { 1int } else { 0int },
{
    let ghost total = pour(cave@, part2, fuel as nat)->0;
    proof {
        lemma_pour_bound(cave@, part2, fuel as nat);
    }
    let mut m = cave;
    let mut left: u64 = fuel;
    let mut ans: u64 = 0;
    let mut more = true;
    while more
        invariant
            m.room(),
            more ==> (pour(m@, part2, left as nat) matches Some(c) && ans + c == total),
            !more ==> ans == total,
            total < fuel,
        decreases left,
    {
        let ghost v = m@;
        more = m.drop_sand(part2);
        if more {
            ans = ans + 1;
        }
        left = left - 1;
        assert(more ==> (pour(m@, part2, left as nat) matches Some(c) && ans + c == total));
    }
    if part2 {
        ans = ans + 1;
    }
    ans
}

/// `s` without its leading commas.
pub open spec fn strip_commas(s: Seq<char>) -> Seq<char>
    decreases s.len(),
{
    if s.len() > 0 && s[0] == ',' {
        strip_commas(s.drop_first())
    } else {
        s
    }
}

/// An error of this puzzle as plain values: whether a comma was missing,
/// and the text.
pub open spec fn err_view(e: Error) -> (bool, Seq<char>) {
    match e {
        Error::ExpectedComma(t) => (true, t@),
        Error::InvalidNumber(t) => (false, t@),
    }
}

/// A coordinate.
pub open spec fn coord(s: Seq<char>) -> Option<int> {
    parse_int(s, false, 0, usize::MAX as int)
}

/// What a point `x,y` reads as.
pub open spec fn point_spec(p: Seq<char>) -> Result<(int, int), (bool, Seq<char>)> {
    match find_spec(p, ',') {
        None => Err((true, p)),
        Some(c) => {
            let s1 = p.take(c);
            let s2 = strip_commas(p.skip(c));
            match coord(s1) {
                None => Err((false, s1)),
                Some(a) => match coord(s2) {
                    None => Err((false, s2)),
                    Some(b) => Ok((a, b)),
                },
            }
        },
    }
}

/// The points of the first `n` texts, or the first error.
pub open spec fn points_spec(ps: Seq<Seq<char>>, n: nat) -> Result<Seq<(int, int)>, (bool, Seq<char>)>
    decreases n,
{
    if n == 0 {
        Ok(Seq::empty())
    } else {
        match points_spec(ps, (n - 1) as nat) {
            Err(e) => Err(e),
            Ok(v) => match point_spec(ps[n - 1]) {
                Err(e) => Err(e),
                Ok(p) => Ok(v.push(p)),
            },
        }
    }
}

/// The separator of the points of a path.
pub open spec fn arrow() -> Seq<char> {
    seq![' ', '-', '>', ' ']
}

/// The points of a path `x,y -> x,y -> ...`.
pub open spec fn path_spec(row: Seq<char>) -> Result<Seq<(int, int)>, (bool, Seq<char>)> {
    let ps = split_spec(row, arrow());
    points_spec(ps, ps.len())
}

/// The paths of the first `n` rows, or the first error.
pub open spec fn paths_spec(rows: Seq<Seq<char>>, n: nat) -> Result<Seq<Seq<(int, int)>>, (bool, Seq<char>)>
    decreases n,
{
    if n == 0 {
        Ok(Seq::empty())
    } else {
        match paths_spec(rows, (n - 1) as nat) {
            Err(e) => Err(e),
            Ok(v) => match path_spec(rows[n - 1]) {
                Err(e) => Err(e),
                Ok(p) => Ok(v.push(p)),
            },
        }
    }
}

/// `(x, y)` lies in the rectangle with corners `p` and `q`.
pub open spec fn between(p: (int, int), q: (int, int), x: int, y: int) -> bool {
    &&& (p.0 <= x <= q.0 || q.0 <= x <= p.0)
    &&& (p.1 <= y <= q.1 || q.1 <= y <= p.1)
}

/// `(x, y)` lies between two consecutive points among the first `k`
/// points of a path.
pub open spec fn covers(path: Seq<(int, int)>, k: int, x: int, y: int) -> bool {
    exists|i: int| 1 <= i < k && i < path.len() && #[trigger] between(path[i - 1], path[i], x, y)
}

/// `(x, y)` is rock: it lies between two consecutive points of one of the
/// first `n` paths.
pub open spec fn rock_at(paths: Seq<Seq<(int, int)>>, n: int, x: int, y: int) -> bool {
    exists|r: int| 0 <= r < n && r < paths.len() && #[trigger] covers(paths[r], paths[r].len() as int, x, y)
}

/// The extent `(min_x, min_y, max_x, max_y)` widened to hold `p`.
pub open spec fn widen_ext(e: (int, int, int, int), p: (int, int)) -> (int, int, int, int) {
    (
        if p.0 < e.0 { p.0 } else { e.0 },
        if p.1 < e.1 { p.1 } else { e.1 },
        if p.0 > e.2 { p.0 } else { e.2 },
        if p.1 > e.3 { p.1 } else { e.3 },
    )
}

/// `e` widened by the first `n` points.
pub open spec fn ext_points(e: (int, int, int, int), pts: Seq<(int, int)>, n: nat) -> (int, int, int, int)
    decreases n,
{
    if n == 0 || n > pts.len() {
        e
    } else {
        widen_ext(ext_points(e, pts, (n - 1) as nat), pts[n - 1])
    }
}

/// The extent of all points of the first `n` paths, starting from the
/// extremes of `usize`.
pub open spec fn extent(paths: Seq<Seq<(int, int)>>, n: nat) -> (int, int, int, int)
    decreases n,
{
    if n == 0 || n > paths.len() {
        (usize::MAX as int, usize::MAX as int, 0, 0)
    } else {
        ext_points(extent(paths, (n - 1) as nat), paths[n - 1], paths[n - 1].len())
    }
}

/// Reads a point `x,y`.
pub fn parse_point(p: &str) -> (r: Result<(usize, usize), Error>)
    ensures
        r matches Ok(v) ==> point_spec(p@) == Ok::<(int, int), (bool, Seq<char>)>((v.0 as int, v.1 as int)),
        r matches Err(e) ==> point_spec(p@) == Err::<(int, int), (bool, Seq<char>)>(err_view(e)),
{
    let (s1, rest) = match split_on(p, ',') {
        Some(t) => t,
        None => {
            return Err(Error::ExpectedComma(owned(p)));
        },
    };
    let ghost c = find_spec(p@, ',')->0;
    proof {
        crate::text::lemma_find_in_range(p@, ',');
    }
    let chars = crate::text::chars_of(rest);
    let mut k: usize = 0;
    assert(p@.skip(c).drop_first() =~= rest@);
    assert(strip_commas(p@.skip(c)) == strip_commas(rest@));
    assert(rest@.skip(0) =~= rest@);
    while k < chars.len() && chars[k] == ','
        invariant
            chars@ == rest@,
            k <= chars.len(),
            strip_commas(rest@) == strip_commas(rest@.skip(k as int)),
        decreases chars.len() - k,
    {
        assert(rest@.skip(k as int).drop_first() =~= rest@.skip(k + 1));
        k = k + 1;
    }
    let s2 = rest.substring_char(k, chars.len());
    assert(s2@ =~= rest@.skip(k as int));
    assert(strip_commas(rest@.skip(k as int)) == rest@.skip(k as int));
    let a = match parse_usize(s1) {
        Some(v) => v,
        None => {
            return Err(Error::InvalidNumber(owned(s1)));
        },
    };
    let b = match parse_usize(s2) {
        Some(v) => v,
        None => {
            return Err(Error::InvalidNumber(owned(s2)));
        },
    };
    Ok((a, b))
}

/// Points of machine integers as points of integers.
pub open spec fn pts_view(v: Seq<(usize, usize)>) -> Seq<(int, int)> {
    v.map_values(|p: (usize, usize)| (p.0 as int, p.1 as int))
}

proof fn lemma_pts_push(v: Seq<(usize, usize)>, p: (usize, usize))
    ensures
        pts_view(v.push(p)) == pts_view(v).push((p.0 as int, p.1 as int)),
{
    assert(pts_view(v.push(p)) =~= pts_view(v).push((p.0 as int, p.1 as int)));
}

/// Reads a path `x,y -> x,y -> ...`.
pub fn parse_path(row: &str) -> (r: Result<Vec<(usize, usize)>, Error>)
    ensures
        r matches Ok(v) ==> path_spec(row@) == Ok::<Seq<(int, int)>, (bool, Seq<char>)>(pts_view(v@)),
        r matches Err(e) ==> path_spec(row@) == Err::<Seq<(int, int)>, (bool, Seq<char>)>(err_view(e)),
{
    let sep = " -> ";
    proof {
        reveal_strlit(" -> ");
        assert(sep@ =~= arrow());
    }
    let pieces = split_str(row, sep);
    let ghost ps = views_of(pieces@);
    let mut v: Vec<(usize, usize)> = Vec::new();
    assert(pts_view(v@) =~= Seq::empty());
    let n = pieces.len();
    let mut k: usize = 0;
    while k < n
        invariant
            n == pieces.len(),
            ps == views_of(pieces@),
            ps == split_spec(row@, arrow()),
            k <= n,
            points_spec(ps, k as nat) == Ok::<Seq<(int, int)>, (bool, Seq<char>)>(pts_view(v@)),
        decreases n - k,
    {
        assert(ps[k as int] == pieces@[k as int]@);
        match parse_point(pieces[k].as_str()) {
            Ok(p) => {
                let ghost before = v@;
                v.push(p);
                proof {
                    lemma_pts_push(before, p);
                }
            },
            Err(e) => {
                proof {
                    lemma_points_error(ps, (k + 1) as nat, n as nat);
                }
                return Err(e);
            },
        }
        k = k + 1;
    }
    Ok(v)
}

proof fn lemma_points_error(ps: Seq<Seq<char>>, k: nat, n: nat)
    requires
        k <= n,
        points_spec(ps, k) is Err,
    ensures
        points_spec(ps, n) == points_spec(ps, k),
    decreases n - k,
{
    if k < n {
        lemma_points_error(ps, k, (n - 1) as nat);
    }
}

proof fn lemma_paths_error(rows: Seq<Seq<char>>, k: nat, n: nat)
    requires
        k <= n,
        paths_spec(rows, k) is Err,
    ensures
        paths_spec(rows, n) == paths_spec(rows, k),
    decreases n - k,
{
    if k < n {
        lemma_paths_error(rows, k, (n - 1) as nat);
    }
}

/// The extent after a path's points.
fn widen_extent(e: (usize, usize, usize, usize), path: &Vec<(usize, usize)>) -> (r: (usize, usize, usize, usize))
    ensures
        (r.0 as int, r.1 as int, r.2 as int, r.3 as int) == ext_points(
            (e.0 as int, e.1 as int, e.2 as int, e.3 as int),
            pts_view(path@),
            path.len() as nat,
        ),
{
    let ghost e0 = (e.0 as int, e.1 as int, e.2 as int, e.3 as int);
    let (mut min_x, mut min_y, mut max_x, mut max_y) = e;
    let n = path.len();
    let mut k: usize = 0;
    while k < n
        invariant
            n == path.len(),
            k <= n,
            (min_x as int, min_y as int, max_x as int, max_y as int) == ext_points(e0, pts_view(path@), k as nat),
        decreases n - k,
    {
        let (n1, n2) = path[k];
        assert(pts_view(path@)[k as int] == (n1 as int, n2 as int));
        min_x = if n1 < min_x { n1 } else { min_x };
        min_y = if n2 < min_y { n2 } else { min_y };
        max_x = if n1 > max_x { n1 } else { max_x };
        max_y = if n2 > max_y { n2 } else { max_y };
        k = k + 1;
    }
    (min_x, min_y, max_x, max_y)
}

proof fn lemma_ext_bounds(e: (int, int, int, int), pts: Seq<(int, int)>, n: nat, k: int)
    requires
        0 <= k < n <= pts.len(),
    ensures
        ext_points(e, pts, n).0 <= pts[k].0 <= ext_points(e, pts, n).2,
        ext_points(e, pts, n).1 <= pts[k].1 <= ext_points(e, pts, n).3,
    decreases n,
{
    if k < n - 1 {
        lemma_ext_bounds(e, pts, (n - 1) as nat, k);
    }
}

proof fn lemma_ext_grows(e: (int, int, int, int), pts: Seq<(int, int)>, n: nat)
    ensures
        ext_points(e, pts, n).2 >= e.2,
        ext_points(e, pts, n).3 >= e.3,
    decreases n,
{
    if n > 0 && n <= pts.len() {
        lemma_ext_grows(e, pts, (n - 1) as nat);
    }
}

proof fn lemma_extent_bounds(paths: Seq<Seq<(int, int)>>, n: nat, r: int, k: int)
    requires
        0 <= r < n <= paths.len(),
        0 <= k < paths[r].len(),
    ensures
        paths[r][k].0 <= extent(paths, n).2,
        paths[r][k].1 <= extent(paths, n).3,
    decreases n,
{
    if r < n - 1 {
        lemma_extent_bounds(paths, (n - 1) as nat, r, k);
        lemma_ext_grows(extent(paths, (n - 1) as nat), paths[n - 1], paths[n - 1].len());
    } else {
        lemma_ext_bounds(extent(paths, (n - 1) as nat), paths[r], paths[r].len(), k);
    }
}

/// Turns the rectangle with corners `(sx, sy)` and `(ex, ey)` to rock.
fn fill_rect(cave: &mut Cave, sx: usize, ex: usize, sy: usize, ey: usize)
    requires
        sx <= ex,
        sy <= ey,
    ensures
        final(cave).min_x == old(cave).min_x,
        final(cave).min_y == old(cave).min_y,
        final(cave).max_x == old(cave).max_x,
        final(cave).max_y == old(cave).max_y,
        final(cave)@.max_y == old(cave)@.max_y,
        forall|x: int, y: int|
            #[trigger] tile(final(cave)@, x, y) == if sx <= x <= ex && sy <= y <= ey {
                Tile::Rock
            } else {
                tile(old(cave)@, x, y)
            },
{
    let ghost start = cave@;
    let mut y = sy;
    let mut rows_done = false;
    while !rows_done
        invariant
            cave.min_x == old(cave).min_x,
            cave.min_y == old(cave).min_y,
            cave.max_x == old(cave).max_x,
            cave.max_y == old(cave).max_y,
            cave@.max_y == old(cave)@.max_y,
            start == old(cave)@,
            sx <= ex,
            sy <= y <= ey,
            rows_done ==> y == ey,
            forall|a: int, b: int|
                #[trigger] tile(cave@, a, b) == if sx <= a <= ex && sy <= b < y + (if rows_done { 1int } else { 0int }) {
                    Tile::Rock
                } else {
                    tile(start, a, b)
                },
        decreases ey - y + (if rows_done { 0int } else { 1int }),
    {
        let mut x = sx;
        let mut cols_done = false;
        while !cols_done
            invariant
                cave.min_x == old(cave).min_x,
                cave.min_y == old(cave).min_y,
                cave.max_x == old(cave).max_x,
                cave.max_y == old(cave).max_y,
                cave@.max_y == old(cave)@.max_y,
                start == old(cave)@,
                sx <= x <= ex,
                sy <= y <= ey,
                cols_done ==> x == ex,
                !rows_done,
                forall|a: int, b: int|
                    #[trigger] tile(cave@, a, b) == if (sx <= a <= ex && sy <= b < y) || (sx <= a < x + (if cols_done {
                        1int
                    } else {
                        0int
                    }) && b == y) {
                        Tile::Rock
                    } else {
                        tile(start, a, b)
                    },
            decreases ex - x + (if cols_done { 0int } else { 1int }),
        {
            proof {
                lemma_with_tile(cave@, x as int, y as int, Tile::Rock);
            }
            cave.set(x, y, Tile::Rock);
            if x == ex {
                cols_done = true;
            } else {
                x = x + 1;
            }
        }
        if y == ey {
            rows_done = true;
        } else {
            y = y + 1;
        }
    }
}

/// Turns every segment of a path to rock.
fn fill_path(cave: &mut Cave, path: &Vec<(usize, usize)>)
    requires
        forall|k: int| 0 <= k < path.len() ==> (#[trigger] path@[k]).0 <= old(cave).max_x && path@[k].1 <= old(cave).max_y,
    ensures
        final(cave).min_x == old(cave).min_x,
        final(cave).min_y == old(cave).min_y,
        final(cave).max_x == old(cave).max_x,
        final(cave).max_y == old(cave).max_y,
        forall|x: int, y: int|
            #[trigger] tile(final(cave)@, x, y) == if covers(pts_view(path@), path.len() as int, x, y) {
                Tile::Rock
            } else {
                tile(old(cave)@, x, y)
            },
{
    let ghost start = cave@;
    let ghost pv = pts_view(path@);
    let n = path.len();
    let mut k: usize = 1;
    assert forall|x: int, y: int| #[trigger] tile(cave@, x, y) == if covers(pv, 1, x, y) {
        Tile::Rock
    } else {
        tile(start, x, y)
    } by {}
    while k < n
        invariant
            cave.min_x == old(cave).min_x,
            cave.min_y == old(cave).min_y,
            cave.max_x == old(cave).max_x,
            cave.max_y == old(cave).max_y,
            start == old(cave)@,
            n == path.len(),
            pv == pts_view(path@),
            1 <= k,
            k <= n || n == 0,
            forall|j: int| 0 <= j < path.len() ==> (#[trigger] path@[j]).0 <= cave.max_x && path@[j].1 <= cave.max_y,
            forall|x: int, y: int|
                #[trigger] tile(cave@, x, y) == if covers(pv, k as int, x, y) {
                    Tile::Rock
                } else {
                    tile(start, x, y)
                },
        decreases n - k,
    {
        let prev = path[k - 1];
        let current = path[k];
        let (start_x, end_x) = if prev.0 < current.0 {
            (prev.0, current.0)
        } else {
            (current.0, prev.0)
        };
        let (start_y, end_y) = if prev.1 < current.1 {
            (prev.1, current.1)
        } else {
            (current.1, prev.1)
        };
        let ghost before = cave@;
        fill_rect(cave, start_x, end_x, start_y, end_y);
        proof {
            assert forall|x: int, y: int| #[trigger] tile(cave@, x, y) == if covers(pv, k + 1, x, y) {
                Tile::Rock
            } else {
                tile(start, x, y)
            } by {
                if covers(pv, k + 1, x, y) && !covers(pv, k as int, x, y) {
                    let i = choose|i: int| 1 <= i < k + 1 && i < pv.len() && #[trigger] between(pv[i - 1], pv[i], x, y);
                    assert(i == k);
                }
                if start_x <= x <= end_x && start_y <= y <= end_y {
                    assert(between(pv[k - 1], pv[k as int], x, y));
                }
            }
        }
        k = k + 1;
    }
    proof {
        if n == 0 {
            assert forall|x: int, y: int| !covers(pv, 0, x, y) by {}
        }
    }
}

/// The paths read so far, as points of integers.
pub open spec fn paths_view(d: Seq<Vec<(usize, usize)>>) -> Seq<Seq<(int, int)>> {
    d.map_values(|v: Vec<(usize, usize)>| pts_view(v@))
}

/// Reads the rock paths, one per non-blank line, and builds the cave.
pub fn read_input(lines: &Vec<String>) -> (r: Result<Cave, Error>)
    ensures
        r matches Ok(cave) ==> {
            let rows = nonblank(views_of(lines@));
            &&& paths_spec(rows, rows.len()) matches Ok(paths)
            &&& (cave.min_x as int, cave.min_y as int, cave.max_x as int, cave.max_y as int) == extent(
                paths,
                paths.len(),
            )
            &&& forall|x: int, y: int|
                #[trigger] tile(cave@, x, y) == if rock_at(paths, paths.len() as int, x, y) {
                    Tile::Rock
                } else {
                    Tile::Empty
                }
        },
        r matches Err(e) ==> {
            let rows = nonblank(views_of(lines@));
            paths_spec(rows, rows.len()) == Err::<Seq<Seq<(int, int)>>, (bool, Seq<char>)>(err_view(e))
        },
{
    let rows = nonblank_lines(lines);
    let ghost rs = views_of(rows@);
    let n = rows.len();
    let mut data: Vec<Vec<(usize, usize)>> = Vec::new();
    let mut e: (usize, usize, usize, usize) = (usize::MAX, usize::MAX, 0, 0);
    let mut k: usize = 0;
    assert(paths_view(data@) =~= Seq::empty());
    while k < n
        invariant
            n == rows.len(),
            rs == views_of(rows@),
            rs == nonblank(views_of(lines@)),
            k <= n,
            data.len() == k,
            paths_spec(rs, k as nat) == Ok::<Seq<Seq<(int, int)>>, (bool, Seq<char>)>(paths_view(data@)),
            (e.0 as int, e.1 as int, e.2 as int, e.3 as int) == extent(paths_view(data@), k as nat),
        decreases n - k,
    {
        assert(rs[k as int] == rows@[k as int]@);
        let path = match parse_path(rows[k].as_str()) {
            Ok(p) => p,
            Err(err) => {
                proof {
                    lemma_paths_error(rs, (k + 1) as nat, n as nat);
                }
                return Err(err);
            },
        };
        let ghost before = data@;
        e = widen_extent(e, &path);
        data.push(path);
        proof {
            assert(paths_view(data@) =~= paths_view(before).push(pts_view(data@[k as int]@)));
            assert(paths_view(data@).take(k as int) =~= paths_view(before));
            lemma_extent_prefix(paths_view(data@), k as nat);
        }
        k = k + 1;
    }
    let ghost paths = paths_view(data@);
    proof {
        assert(paths.len() == n);
    }
    let mut cave = Cave::new(e.0, e.1, e.2, e.3);
    let mut r: usize = 0;
    while r < n
        invariant
            n == data.len(),
            paths == paths_view(data@),
            paths.len() == n,
            (cave.min_x as int, cave.min_y as int, cave.max_x as int, cave.max_y as int) == extent(paths, n as nat),
            r <= n,
            forall|x: int, y: int|
                #[trigger] tile(cave@, x, y) == if rock_at(paths, r as int, x, y) {
                    Tile::Rock
                } else {
                    Tile::Empty
                },
        decreases n - r,
    {
        proof {
            assert forall|j: int| 0 <= j < data@[r as int].len() implies (#[trigger] data@[r as int]@[j]).0 <= cave.max_x
                && data@[r as int]@[j].1 <= cave.max_y by {
                assert(paths[r as int] == pts_view(data@[r as int]@));
                assert(paths[r as int][j] == (data@[r as int]@[j].0 as int, data@[r as int]@[j].1 as int));
                lemma_extent_bounds(paths, n as nat, r as int, j);
            }
        }
        fill_path(&mut cave, &data[r]);
        proof {
            assert(paths[r as int] == pts_view(data@[r as int]@));
            assert forall|x: int, y: int| #[trigger] tile(cave@, x, y) == if rock_at(paths, r + 1, x, y) {
                Tile::Rock
            } else {
                Tile::Empty
            } by {
                if rock_at(paths, r + 1, x, y) && !rock_at(paths, r as int, x, y) {
                    let q = choose|q: int| 0 <= q < r + 1 && q < paths.len() && #[trigger] covers(paths[q], paths[q].len() as int, x, y);
                    assert(q == r);
                }
                if covers(paths[r as int], paths[r as int].len() as int, x, y) {
                    assert(rock_at(paths, r + 1, x, y));
                }
            }
        }
        r = r + 1;
    }
    Ok(cave)
}

proof fn lemma_extent_prefix(paths: Seq<Seq<(int, int)>>, k: nat)
    requires
        k < paths.len(),
    ensures
        extent(paths, k + 1) == ext_points(extent(paths.take(k as int), k), paths[k as int], paths[k as int].len()),
        extent(paths.take(k as int), k) == extent(paths, k),
{
    lemma_extent_take(paths, k, k);
}

proof fn lemma_extent_take(paths: Seq<Seq<(int, int)>>, k: nat, m: nat)
    requires
        m <= k <= paths.len(),
    ensures
        extent(paths.take(k as int), m) == extent(paths, m),
    decreases m,
{
    if m > 0 {
        lemma_extent_take(paths, k, (m - 1) as nat);
    }
}

} // verus!
