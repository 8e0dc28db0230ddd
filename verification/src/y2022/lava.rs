//! Boiling boulders: unit cubes of lava on a grid; count the faces that
//! touch no other cube.
use vstd::prelude::*;
use crate::common::split_on;
use crate::text::{find_spec, nonblank, nonblank_lines, parse_i32, parse_int, views_of};

verus! {

/// Errors of this puzzle.
pub enum Error {
    /// A line lacks a comma; the text is what was searched.
    MissingComma(String),
    /// A coordinate is not an `i32`; the text is the coordinate.
    InvalidNumber(String),
}

/// Why a line does not parse, as plain values.
pub enum Failure {
    MissingComma(Seq<char>),
    InvalidNumber(Seq<char>),
}

/// A failure of `parse_line` as a plain value.
pub open spec fn failure(e: Error) -> Failure {
    match e {
        Error::MissingComma(s) => Failure::MissingComma(s@),
        Error::InvalidNumber(s) => Failure::InvalidNumber(s@),
    }
}

/// The value of a decimal `i32`.
pub open spec fn coord_value(s: Seq<char>) -> Option<int> {
    parse_int(s, true, i32::MIN as int, i32::MAX as int)
}

/// What a line `x,y,z` says: the three numbers, or why it does not parse
/// (a missing comma is found before a bad number; numbers are read from
/// the left).
pub open spec fn line_spec(s: Seq<char>) -> Result<(int, int, int), Failure> {
    match find_spec(s, ',') {
        None => Err(Failure::MissingComma(s)),
        Some(i) => {
            let rest = s.skip(i + 1);
            match find_spec(rest, ',') {
                None => Err(Failure::MissingComma(rest)),
                Some(j) => {
                    let (s1, s2, s3) = (s.take(i), rest.take(j), rest.skip(j + 1));
                    match (coord_value(s1), coord_value(s2), coord_value(s3)) {
                        (None, _, _) => Err(Failure::InvalidNumber(s1)),
                        (Some(_), None, _) => Err(Failure::InvalidNumber(s2)),
                        (Some(_), Some(_), None) => Err(Failure::InvalidNumber(s3)),
                        (Some(a), Some(b), Some(c)) => Ok((a, b, c)),
                    }
                },
            }
        },
    }
}

/// Parses a line `x,y,z`.
pub fn parse_line(s: &str) -> (r: Result<(i32, i32, i32), Error>)
    ensures
        line_spec(s@) matches Ok((a, b, c)) ==> r matches Ok(t) && t.0 == a && t.1 == b && t.2 == c,
        line_spec(s@) matches Err(f) ==> r matches Err(e) && failure(e) == f,
{
    let (sn1, rest) = match split_on(s, ',') {
        Some(p) => p,
        None => {
            return Err(Error::MissingComma(s.to_owned()));
        },
    };
    let (sn2, sn3) = match split_on(rest, ',') {
        Some(p) => p,
        None => {
            return Err(Error::MissingComma(rest.to_owned()));
        },
    };
    let n1 = match parse_i32(sn1) {
        Some(n) => n,
        None => {
            return Err(Error::InvalidNumber(sn1.to_owned()));
        },
    };
    let n2 = match parse_i32(sn2) {
        Some(n) => n,
        None => {
            return Err(Error::InvalidNumber(sn2.to_owned()));
        },
    };
    let n3 = match parse_i32(sn3) {
        Some(n) => n,
        None => {
            return Err(Error::InvalidNumber(sn3.to_owned()));
        },
    };
    Ok((n1, n2, n3))
}

/// The coordinates of a cube.
pub open spec fn pos3(c: (i32, i32, i32)) -> (int, int, int) {
    (c.0 as int, c.1 as int, c.2 as int)
}

/// Every coordinate is at least zero and leaves room to add two.
pub open spec fn coords_ok(cs: Seq<(i32, i32, i32)>) -> bool {
    forall|k: int| 0 <= k < cs.len() ==> 0 <= (#[trigger] cs[k]).0 <= i32::MAX - 2 && 0 <= cs[k].1 <= i32::MAX - 2
        && 0 <= cs[k].2 <= i32::MAX - 2
}

/// Coordinate `axis` (0, 1 or 2) of a cube.
pub open spec fn pick(c: (i32, i32, i32), axis: int) -> int {
    if axis == 0 { c.0 as int } else if axis == 1 { c.1 as int } else { c.2 as int }
}

/// Two more than the greatest coordinate on `axis` (0 without cubes).
pub open spec fn top(cs: Seq<(i32, i32, i32)>, axis: int) -> int
    decreases cs.len(),
{
    if cs.len() == 0 {
        0
    } else {
        let t = top(cs.drop_last(), axis);
        if pick(cs.last(), axis) + 2 > t { pick(cs.last(), axis) + 2 } else { t }
    }
}

proof fn lemma_top(cs: Seq<(i32, i32, i32)>, axis: int)
    requires
        coords_ok(cs),
    ensures
        forall|k: int| 0 <= k < cs.len() ==> pick(#[trigger] cs[k], axis) + 2 <= top(cs, axis),
        0 <= top(cs, axis) <= i32::MAX,
    decreases cs.len(),
{
    if cs.len() > 0 {
        let p = cs.drop_last();
        assert forall|k: int| 0 <= k < p.len() implies p[k] == cs[k] by {}
        lemma_top(p, axis);
        assert(cs.last() == cs[cs.len() - 1]);
    }
}

/// The size of a box that holds every cube with room beyond the largest
/// coordinates: two more than the greatest coordinate on each axis.
pub fn dim(v: &Vec<(i32, i32, i32)>) -> (r: (i32, i32, i32))
    requires
        v.len() > 0,
        coords_ok(v@),
    ensures
        r.0 == top(v@, 0),
        r.1 == top(v@, 1),
        r.2 == top(v@, 2),
{
    let (mut x, mut y, mut z) = v[0];
    let n = v.len();
    for i in 0..n
        invariant
            n == v@.len(),
            n > 0,
            coords_ok(v@),
            i == 0 ==> x == v@[0].0 && y == v@[0].1 && z == v@[0].2,
            i > 0 ==> x == top(v@.take(i as int), 0) && y == top(v@.take(i as int), 1) && z == top(v@.take(i as int), 2),
    {
        let c = v[i];
        proof {
            assert(0 <= c.0 <= i32::MAX - 2 && 0 <= c.1 <= i32::MAX - 2 && 0 <= c.2 <= i32::MAX - 2);
            assert(v@.take(i + 1).drop_last() =~= v@.take(i as int));
            assert(v@.take(i + 1).last() == c);
            if i == 0 {
                assert(v@.take(0) =~= Seq::<(i32, i32, i32)>::empty());
            }
        }
        if c.0 + 2 > x {
            x = c.0 + 2;
        }
        if c.1 + 2 > y {
            y = c.1 + 2;
        }
        if c.2 + 2 > z {
            z = c.2 + 2;
        }
        proof {
            let t = v@.take(i + 1);
            assert(top(t, 0) == if pick(c, 0) + 2 > top(v@.take(i as int), 0) { pick(c, 0) + 2 } else { top(v@.take(i as int), 0) });
            assert(top(t, 1) == if pick(c, 1) + 2 > top(v@.take(i as int), 1) { pick(c, 1) + 2 } else { top(v@.take(i as int), 1) });
            assert(top(t, 2) == if pick(c, 2) + 2 > top(v@.take(i as int), 2) { pick(c, 2) + 2 } else { top(v@.take(i as int), 2) });
        }
    }
    proof {
        assert(v@.take(n as int) =~= v@);
    }
    (x, y, z)
}

/// A cube of `cs` sits at `p`.
pub open spec fn occupied(cs: Seq<(i32, i32, i32)>, p: (int, int, int)) -> bool {
    exists|k: int| 0 <= k < cs.len() && pos3(#[trigger] cs[k]) == p
}

/// 1 when no cube sits at `p`, else 0.
pub open spec fn open_side(cs: Seq<(i32, i32, i32)>, p: (int, int, int)) -> int {
    if occupied(cs, p) { 0 } else { 1 }
}

/// The faces of a cube at `c` that touch no cube of `cs`.
pub open spec fn exposed(cs: Seq<(i32, i32, i32)>, c: (int, int, int)) -> int {
    open_side(cs, (c.0 - 1, c.1, c.2)) + open_side(cs, (c.0 + 1, c.1, c.2)) + open_side(cs, (c.0, c.1 - 1, c.2))
        + open_side(cs, (c.0, c.1 + 1, c.2)) + open_side(cs, (c.0, c.1, c.2 - 1)) + open_side(cs, (c.0, c.1, c.2 + 1))
}

/// The exposed faces of the first `n` cubes of `cs`, each cube counted as
/// often as it is listed.
pub open spec fn faces(cs: Seq<(i32, i32, i32)>, n: nat) -> int
    decreases n,
{
    if n == 0 {
        0
    } else {
        faces(cs, (n - 1) as nat) + exposed(cs, pos3(cs[n - 1]))
    }
}

proof fn lemma_faces_grow(cs: Seq<(i32, i32, i32)>, m: nat, n: nat)
    requires
        m <= n,
    ensures
        0 <= faces(cs, m) <= faces(cs, n),
    decreases n,
{
    if n > m {
        lemma_faces_grow(cs, m, (n - 1) as nat);
    } else if n > 0 {
        lemma_faces_grow(cs, 0, (n - 1) as nat);
    }
}

/// The position of cell `(x, y, z)` in a box of `dy` by `dz` cells per
/// layer, layer by layer, row by row.
pub open spec fn cell(dy: int, dz: int, x: int, y: int, z: int) -> int {
    (x * dy + y) * dz + z
}

proof fn lemma_lex(a1: int, b1: int, a2: int, b2: int, m: int)
    requires
        0 <= a1 && 0 <= a2,
        0 <= b1 < m,
        0 <= b2 < m,
        a1 * m + b1 == a2 * m + b2,
    ensures
        a1 == a2 && b1 == b2,
{
    if a1 < a2 {
        assert(a1 * m + b1 < a2 * m + b2) by (nonlinear_arith)
            requires
                a1 < a2,
                0 <= b1 < m,
                0 <= b2,
        ;
    } else if a2 < a1 {
        assert(a2 * m + b2 < a1 * m + b1) by (nonlinear_arith)
            requires
                a2 < a1,
                0 <= b2 < m,
                0 <= b1,
        ;
    }
}

proof fn lemma_cell(dx: int, dy: int, dz: int, x: int, y: int, z: int)
    requires
        0 <= x < dx,
        0 <= y < dy,
        0 <= z < dz,
    ensures
        0 <= x * dy + y < dx * dy,
        0 <= cell(dy, dz, x, y, z) < dx * dy * dz,
{
    assert(0 <= x * dy + y < dx * dy) by (nonlinear_arith)
        requires
            0 <= x < dx,
            0 <= y < dy,
    ;
    let w = x * dy + y;
    assert(0 <= w * dz + z < (dx * dy) * dz) by (nonlinear_arith)
        requires
            0 <= w < dx * dy,
            0 <= z < dz,
    ;
    assert((dx * dy) * dz == dx * dy * dz) by (nonlinear_arith);
}

proof fn lemma_cell_unique(dy: int, dz: int, x1: int, y1: int, z1: int, x2: int, y2: int, z2: int)
    requires
        0 <= x1 && 0 <= x2,
        0 <= y1 < dy && 0 <= y2 < dy,
        0 <= z1 < dz && 0 <= z2 < dz,
        cell(dy, dz, x1, y1, z1) == cell(dy, dz, x2, y2, z2),
    ensures
        x1 == x2 && y1 == y2 && z1 == z2,
{
    assert(0 <= x1 * dy + y1 && 0 <= x2 * dy + y2) by (nonlinear_arith)
        requires
            0 <= x1 && 0 <= x2,
            0 <= y1 && 0 <= y2,
            0 <= dy,
    ;
    lemma_lex(x1 * dy + y1, z1, x2 * dy + y2, z2, dz);
    lemma_lex(x1, y1, x2, y2, dy);
}

/// The cell index of `(x, y, z)`.
fn cell_index(dx: usize, dy: usize, dz: usize, x: usize, y: usize, z: usize) -> (r: usize)
    requires
        x < dx && y < dy && z < dz,
        dx * dy * dz <= usize::MAX,
    ensures
        r == cell(dy as int, dz as int, x as int, y as int, z as int),
        r < dx * dy * dz,
{
    proof {
        lemma_cell(dx as int, dy as int, dz as int, x as int, y as int, z as int);
        assert(dx * dy <= dx * dy * dz) by (nonlinear_arith)
            requires
                0 <= z < dz,
                0 <= dx * dy,
        ;
    }
    (x * dy + y) * dz + z
}

/// The number of faces of the cubes that touch no other cube, a cube
/// listed twice counted twice; `None` when that number does not fit in an
/// `i32`.
pub fn count_faces(coords: &Vec<(i32, i32, i32)>) -> (r: Option<i32>)
    requires
        coords.len() > 0,
        coords_ok(coords@),
        top(coords@, 0) * top(coords@, 1) * top(coords@, 2) <= usize::MAX,
    ensures
        faces(coords@, coords@.len() as nat) <= i32::MAX ==> r == Some(faces(coords@, coords@.len() as nat) as i32),
        faces(coords@, coords@.len() as nat) > i32::MAX ==> r is None,
        faces(coords@, coords@.len() as nat) >= 0,
{
    let ghost cs = coords@;
    proof {
        lemma_faces_grow(cs, 0, cs.len() as nat);
    }
    let d = dim(coords);
    proof {
        lemma_top(cs, 0);
        lemma_top(cs, 1);
        lemma_top(cs, 2);
    }
    let dx = d.0 as usize;
    let dy = d.1 as usize;
    let dz = d.2 as usize;
    proof {
        assert(dx * dy <= dx * dy * dz) by (nonlinear_arith)
            requires
                1 <= dz,
                0 <= dx * dy,
        ;
        assert(0 <= dx * dy) by (nonlinear_arith);
    }
    let size = dx * dy * dz;
    let mut grid: Vec<bool> = Vec::new();
    for i in 0..size
        invariant
            grid@.len() == i,
            forall|j: int| 0 <= j < i ==> !grid@[j],
    {
        grid.push(false);
    }
    proof {
        assert forall|x: int, y: int, z: int| 0 <= x < dx && 0 <= y < dy && 0 <= z < dz implies #[trigger] grid@[cell(
            dy as int,
            dz as int,
            x,
            y,
            z,
        )] == exists|k: int| 0 <= k < 0 && pos3(#[trigger] cs[k]) == (x, y, z) by {
            lemma_cell(dx as int, dy as int, dz as int, x, y, z);
        }
    }
    let n = coords.len();
    for i in 0..n
        invariant
            n == cs.len(),
            cs == coords@,
            coords_ok(cs),
            size == dx * dy * dz,
            dx == top(cs, 0) && dy == top(cs, 1) && dz == top(cs, 2),
            forall|k: int| 0 <= k < cs.len() ==> pick(#[trigger] cs[k], 0) + 2 <= dx && pick(cs[k], 1) + 2 <= dy && pick(
                cs[k],
                2,
            ) + 2 <= dz,
            grid@.len() == size,
            forall|x: int, y: int, z: int| 0 <= x < dx && 0 <= y < dy && 0 <= z < dz ==> #[trigger] grid@[cell(
                dy as int,
                dz as int,
                x,
                y,
                z,
            )] == exists|k: int| 0 <= k < i && pos3(#[trigger] cs[k]) == (x, y, z),
    {
        let c = coords[i];
        proof {
            assert(pick(cs[i as int], 0) + 2 <= dx && pick(cs[i as int], 1) + 2 <= dy && pick(cs[i as int], 2) + 2 <= dz);
        }
        let k = cell_index(dx, dy, dz, c.0 as usize, c.1 as usize, c.2 as usize);
        let ghost before = grid@;
        grid.set(k, true);
        proof {
            assert forall|x: int, y: int, z: int| 0 <= x < dx && 0 <= y < dy && 0 <= z < dz implies #[trigger] grid@[cell(
                dy as int,
                dz as int,
                x,
                y,
                z,
            )] == exists|k2: int| 0 <= k2 < i + 1 && pos3(#[trigger] cs[k2]) == (x, y, z) by {
                lemma_cell(dx as int, dy as int, dz as int, x, y, z);
                let q = cell(dy as int, dz as int, x, y, z);
                if (x, y, z) == pos3(c) {
                    assert(pos3(cs[i as int]) == (x, y, z));
                } else {
                    if q == k {
                        lemma_cell_unique(dy as int, dz as int, x, y, z, c.0 as int, c.1 as int, c.2 as int);
                    }
                    assert(grid@[q] == before[q]);
                    if exists|k2: int| 0 <= k2 < i + 1 && pos3(#[trigger] cs[k2]) == (x, y, z) {
                        let k2 = choose|k2: int| 0 <= k2 < i + 1 && pos3(#[trigger] cs[k2]) == (x, y, z);
                        assert(k2 != i);
                    }
                }
            }
        }
    }
    proof {
        assert forall|x: int, y: int, z: int| 0 <= x < dx && 0 <= y < dy && 0 <= z < dz implies #[trigger] grid@[cell(
            dy as int,
            dz as int,
            x,
            y,
            z,
        )] == occupied(cs, (x, y, z)) by {
            if occupied(cs, (x, y, z)) {
                let k = choose|k: int| 0 <= k < cs.len() && pos3(#[trigger] cs[k]) == (x, y, z);
                assert(0 <= k < n && pos3(cs[k]) == (x, y, z));
            }
        }
        lemma_faces_grow(cs, 0, n as nat);
    }
    let mut total: i32 = 0;
    for i in 0..n
        invariant
            n == cs.len(),
            cs == coords@,
            coords_ok(cs),
            size == dx * dy * dz,
            dx == top(cs, 0) && dy == top(cs, 1) && dz == top(cs, 2),
            forall|k: int| 0 <= k < cs.len() ==> pick(#[trigger] cs[k], 0) + 2 <= dx && pick(cs[k], 1) + 2 <= dy && pick(
                cs[k],
                2,
            ) + 2 <= dz,
            grid@.len() == size,
            forall|x: int, y: int, z: int| 0 <= x < dx && 0 <= y < dy && 0 <= z < dz ==> #[trigger] grid@[cell(
                dy as int,
                dz as int,
                x,
                y,
                z,
            )] == occupied(cs, (x, y, z)),
            total == faces(cs, i as nat),
    {
        let c = coords[i];
        proof {
            assert(pick(cs[i as int], 0) + 2 <= dx && pick(cs[i as int], 1) + 2 <= dy && pick(cs[i as int], 2) + 2 <= dz);
            lemma_faces_grow(cs, (i + 1) as nat, n as nat);
            lemma_faces_grow(cs, i as nat, (i + 1) as nat);
        }
        let x = c.0 as usize;
        let y = c.1 as usize;
        let z = c.2 as usize;
        let mut sides: i32 = 0;
        if x == 0 || !grid[cell_index(dx, dy, dz, x - 1, y, z)] {
            sides = sides + 1;
        }
        if !grid[cell_index(dx, dy, dz, x + 1, y, z)] {
            sides = sides + 1;
        }
        if y == 0 || !grid[cell_index(dx, dy, dz, x, y - 1, z)] {
            sides = sides + 1;
        }
        if !grid[cell_index(dx, dy, dz, x, y + 1, z)] {
            sides = sides + 1;
        }
        if z == 0 || !grid[cell_index(dx, dy, dz, x, y, z - 1)] {
            sides = sides + 1;
        }
        if !grid[cell_index(dx, dy, dz, x, y, z + 1)] {
            sides = sides + 1;
        }
        proof {
            let p = pos3(c);
            if x == 0 {
                assert(!occupied(cs, (p.0 - 1, p.1, p.2)));
            }
            if y == 0 {
                assert(!occupied(cs, (p.0, p.1 - 1, p.2)));
            }
            if z == 0 {
                assert(!occupied(cs, (p.0, p.1, p.2 - 1)));
            }
            assert(sides == exposed(cs, p));
        }
        if sides > i32::MAX - total {
            return None;
        }
        total = total + sides;
    }
    Some(total)
}

/// What the lines say: the cube of each line, in order, or the failure of
/// the first line that does not parse.
pub open spec fn cubes_spec(ls: Seq<Seq<char>>) -> Result<Seq<(int, int, int)>, Failure>
    decreases ls.len(),
{
    if ls.len() == 0 {
        Ok(Seq::empty())
    } else {
        match cubes_spec(ls.drop_last()) {
            Err(f) => Err(f),
            Ok(v) => match line_spec(ls.last()) {
                Err(f) => Err(f),
                Ok(c) => Ok(v.push(c)),
            },
        }
    }
}

/// The cubes as plain coordinates.
pub open spec fn cubes_view(v: Seq<(i32, i32, i32)>) -> Seq<(int, int, int)> {
    v.map_values(|c: (i32, i32, i32)| pos3(c))
}

/// Trims the lines, skips blank ones and parses the others.
pub fn read_cubes(lines: &Vec<String>) -> (r: Result<Vec<(i32, i32, i32)>, Error>)
    ensures
        cubes_spec(nonblank(views_of(lines@))) matches Ok(v) ==> r matches Ok(w) && cubes_view(w@) == v,
        cubes_spec(nonblank(views_of(lines@))) matches Err(f) ==> r matches Err(e) && failure(e) == f,
{
    let ls = nonblank_lines(lines);
    let ghost v = nonblank(views_of(lines@));
    let mut out: Vec<(i32, i32, i32)> = Vec::new();
    proof {
        assert(views_of(ls@) == v);
        assert(v.take(0) =~= Seq::<Seq<char>>::empty());
        assert(cubes_view(out@) =~= Seq::<(int, int, int)>::empty());
    }
    let n = ls.len();
    for i in 0..n
        invariant
            n == ls@.len(),
            views_of(ls@) == v,
            v == nonblank(views_of(lines@)),
            v.len() == n,
            cubes_spec(v.take(i as int)) == Ok::<Seq<(int, int, int)>, Failure>(cubes_view(out@)),
    {
        proof {
            assert(v[i as int] == ls@[i as int]@);
            assert(v.take(i + 1).drop_last() =~= v.take(i as int));
            assert(v.take(i + 1).last() == v[i as int]);
        }
        match parse_line(ls[i].as_str()) {
            Ok(c) => {
                let ghost before = out@;
                out.push(c);
                proof {
                    assert(cubes_view(out@) =~= cubes_view(before).push(pos3(c)));
                }
            },
            Err(e) => {
                proof {
                    assert(cubes_spec(v.take(i + 1)) == Err::<Seq<(int, int, int)>, Failure>(failure(e)));
                    lemma_cubes_err_stays(v, (i + 1) as int, failure(e));
                }
                return Err(e);
            },
        }
    }
    proof {
        assert(v.take(n as int) =~= v);
    }
    Ok(out)
}

proof fn lemma_cubes_err_stays(ls: Seq<Seq<char>>, k: int, f: Failure)
    requires
        0 <= k <= ls.len(),
        cubes_spec(ls.take(k)) == Err::<Seq<(int, int, int)>, Failure>(f),
    ensures
        cubes_spec(ls) == Err::<Seq<(int, int, int)>, Failure>(f),
    decreases ls.len() - k,
{
    if k < ls.len() {
        assert(ls.take(k + 1).drop_last() =~= ls.take(k));
        lemma_cubes_err_stays(ls, k + 1, f);
    } else {
        assert(ls.take(k) =~= ls);
    }
}

/// Reads the cubes and counts their faces that touch no other cube.
/// `Ok(None)` exactly when the count cannot be made here: there is no
/// cube, a coordinate is negative or within two of the `i32` limit, the box
/// around the cubes has more cells than a `usize` counts, or the number of
/// faces does not fit in an `i32`.
pub fn process(lines: &Vec<String>) -> (r: Result<Option<i32>, Error>)
    ensures
        cubes_spec(nonblank(views_of(lines@))) matches Err(f) ==> r matches Err(e) && failure(e) == f,
        cubes_spec(nonblank(views_of(lines@))) is Ok ==> r is Ok,
        r matches Ok(o) ==> exists|w: Seq<(i32, i32, i32)>| cubes_spec(nonblank(views_of(lines@))) == Ok::<
            Seq<(int, int, int)>,
            Failure,
        >(cubes_view(w)) && (o is None <==> (w.len() == 0 || !coords_ok(w) || top(w, 0) * top(w, 1) * top(w, 2)
            > usize::MAX || faces(w, w.len() as nat) > i32::MAX)) && (o matches Some(t) ==> t == faces(w, w.len() as nat)),
{
    let cubes = read_cubes(lines)?;
    let ghost w = cubes@;
    let n = cubes.len();
    if n == 0 {
        return Ok(None);
    }
    let mut k: usize = 0;
    while k < n
        invariant
            n == cubes@.len(),
            w == cubes@,
            cubes_spec(nonblank(views_of(lines@))) == Ok::<Seq<(int, int, int)>, Failure>(cubes_view(w)),
            k <= n,
            forall|j: int| 0 <= j < k ==> 0 <= (#[trigger] cubes@[j]).0 <= i32::MAX - 2 && 0 <= cubes@[j].1 <= i32::MAX
                - 2 && 0 <= cubes@[j].2 <= i32::MAX - 2,
        decreases n - k,
    {
        let c = cubes[k];
        if c.0 < 0 || c.0 > i32::MAX - 2 || c.1 < 0 || c.1 > i32::MAX - 2 || c.2 < 0 || c.2 > i32::MAX - 2 {
            proof {
                assert(!coords_ok(w)) by {
                    assert(w[k as int] == c);
                }
            }
            return Ok(None);
        }
        k = k + 1;
    }
    let d = dim(&cubes);
    proof {
        lemma_top(w, 0);
        lemma_top(w, 1);
        lemma_top(w, 2);
    }
    proof {
        assert(0 <= d.0 * d.1 <= 0x7fff_ffff * 0x7fff_ffff) by (nonlinear_arith)
            requires
                0 <= d.0 <= 0x7fff_ffff,
                0 <= d.1 <= 0x7fff_ffff,
        ;
        assert(0 <= (d.0 * d.1) * d.2 <= (0x7fff_ffff * 0x7fff_ffff) * 0x7fff_ffff) by (nonlinear_arith)
            requires
                0 <= d.0 * d.1 <= 0x7fff_ffff * 0x7fff_ffff,
                0 <= d.2 <= 0x7fff_ffff,
        ;
        assert((d.0 * d.1) * d.2 == d.0 * d.1 * d.2) by (nonlinear_arith);
    }
    let big = (d.0 as u128) * (d.1 as u128) * (d.2 as u128);
    if big > usize::MAX as u128 {
        return Ok(None);
    }
    Ok(count_faces(&cubes))
}

} // verus!
