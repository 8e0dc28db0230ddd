//! Pipe maze: the loop of pipes through the start square, the distance of
//! its farthest point, and the number of squares it encloses.
use vstd::prelude::*;
use std::collections::VecDeque;
use crate::text::{chars_of, find_char, find_spec, lemma_nonblank_nonempty, nonblank, nonblank_lines, views_of};

verus! {

/// One square of the maze: the sides its pipe opens to, and the distances
/// found along each of the two ways round the loop.
#[derive(Clone, Copy, Debug)]
pub struct Node {
    pub n: bool,
    pub s: bool,
    pub e: bool,
    pub w: bool,
    pub d1: Option<i64>,
    pub d2: Option<i64>,
}

/// The square a character draws, with no distance yet.
pub open spec fn node_of(c: char) -> Node {
    Node {
        n: c == '|' || c == 'J' || c == 'L',
        s: c == '|' || c == '7' || c == 'F',
        e: c == '-' || c == 'L' || c == 'F',
        w: c == '-' || c == 'J' || c == '7',
        d1: None,
        d2: None,
    }
}

/// The smaller of the two distances, once both are known.
pub open spec fn dist(nd: Node) -> Option<i64> {
    match (nd.d1, nd.d2) {
        (Some(a), Some(b)) => Some(if a <= b { a } else { b }),
        _ => None,
    }
}

/// The character of a base-36 digit below 36.
pub open spec fn digit36(d: u32) -> char {
    if d < 10 {
        (('0' as u32) + d) as char
    } else {
        (('a' as u32) + d - 10) as char
    }
}

/// The pipe a node has, when it is one of the six shapes or none.
pub open spec fn drawable(nd: Node) -> bool {
    ||| dist(nd) is Some
    ||| (nd.n && nd.s && !nd.e && !nd.w)
    ||| (nd.n && nd.w && !nd.s && !nd.e)
    ||| (nd.n && nd.e && !nd.w && !nd.s)
    ||| (nd.w && nd.e && !nd.n && !nd.s)
    ||| (nd.s && nd.w && !nd.n && !nd.e)
    ||| (nd.s && nd.e && !nd.n && !nd.w)
    ||| (!nd.n && !nd.s && !nd.w && !nd.e)
}

/// How a node is drawn: its distance as a base-36 digit (`#` past 35), or
/// its pipe.
pub open spec fn char_of(nd: Node) -> char {
    if let Some(d) = dist(nd) {
        if (d as u32) < 36 {
            digit36(d as u32)
        } else {
            '#'
        }
    } else if nd.n && nd.s && !nd.e && !nd.w {
        '|'
    } else if nd.n && nd.w && !nd.s && !nd.e {
        'J'
    } else if nd.n && nd.e && !nd.w && !nd.s {
        'L'
    } else if nd.w && nd.e && !nd.n && !nd.s {
        '-'
    } else if nd.s && nd.w && !nd.n && !nd.e {
        '7'
    } else if nd.s && nd.e && !nd.n && !nd.w {
        'F'
    } else {
        '.'
    }
}

impl Node {
    /// The square a character draws.
    pub fn from_char(c: char) -> (r: Node)
        ensures
            r == node_of(c),
    {
        Node {
            n: c == '|' || c == 'J' || c == 'L',
            s: c == '|' || c == '7' || c == 'F',
            e: c == '-' || c == 'L' || c == 'F',
            w: c == '-' || c == 'J' || c == '7',
            d1: None,
            d2: None,
        }
    }

    /// How the node is drawn.
    pub fn to_char(&self) -> (r: char)
        requires
            drawable(*self),
        ensures
            r == char_of(*self),
    {
        if let Some(d) = self.d() {
            let k = d as u32;
            if k < 36 {
                if k < 10 {
                    let c = (('0' as u32) + k) as u8 as char;
                    assert(c == digit36(k)) by {
                        assert(('0' as u32) + k < 256);
                    }
                    c
                } else {
                    let c = (('a' as u32) + k - 10) as u8 as char;
                    assert(c == digit36(k)) by {
                        assert(('a' as u32) + k - 10 < 256);
                    }
                    c
                }
            } else {
                '#'
            }
        } else if self.n && self.s && !self.e && !self.w {
            '|'
        } else if self.n && self.w && !self.s && !self.e {
            'J'
        } else if self.n && self.e && !self.w && !self.s {
            'L'
        } else if self.w && self.e && !self.n && !self.s {
            '-'
        } else if self.s && self.w && !self.n && !self.e {
            '7'
        } else if self.s && self.e && !self.n && !self.w {
            'F'
        } else {
            '.'
        }
    }

    /// The smaller of the two distances, once both are known.
    pub fn d(&self) -> (r: Option<i64>)
        ensures
            r == dist(*self),
    {
        if let Some(d1) = self.d1 {
            if let Some(d2) = self.d2 {
                Some(if d1 <= d2 { d1 } else { d2 })
            } else {
                None
            }
        } else {
            None
        }
    }

    /// Whether the node is on the loop.
    pub fn in_loop(&self) -> (r: bool)
        ensures
            r == (dist(*self) is Some),
    {
        self.d().is_some()
    }
}

/// Why the maze has no answer.
#[derive(Clone, Copy, Debug, PartialEq, Eq, Structural)]
pub enum PipeError {
    /// The start does not join exactly two pipes.
    BadStart,
    /// The distances did not settle within the search's limit.
    SearchLimit,
}

/// The maze: the start square and the rows of nodes.
pub struct Input {
    pub start: (usize, usize),
    pub map: Vec<Vec<Node>>,
}

/// The rows of nodes.
pub open spec fn grid(inp: &Input) -> Seq<Seq<Node>> {
    inp.map@.map_values(|r: Vec<Node>| r@)
}

/// The start as a pair of integers.
pub open spec fn start_of(inp: &Input) -> (int, int) {
    (inp.start.0 as int, inp.start.1 as int)
}

pub open spec fn in_grid(g: Seq<Seq<Node>>, p: (int, int)) -> bool {
    0 <= p.0 < g.len() && 0 <= p.1 < g[p.0].len()
}

/// The squares next to the start can be looked at: the start is on the
/// map, and so is each square beside it that the first row's width says
/// is there.
pub open spec fn patchable(g: Seq<Seq<Node>>, s: (int, int)) -> bool {
    &&& in_grid(g, s)
    &&& g[0].len() >= 1
    &&& s.0 > 0 ==> s.1 < g[s.0 - 1].len()
    &&& s.0 < g.len() - 1 ==> s.1 < g[s.0 + 1].len()
    &&& s.1 < g[0].len() - 1 ==> s.1 + 1 < g[s.0].len()
}

/// The pipe above the start opens down to it.
pub open spec fn joins_n(g: Seq<Seq<Node>>, s: (int, int)) -> bool {
    s.0 > 0 && g[s.0 - 1][s.1].s
}

/// The pipe below the start opens up to it.
pub open spec fn joins_s(g: Seq<Seq<Node>>, s: (int, int)) -> bool {
    s.0 < g.len() - 1 && g[s.0 + 1][s.1].n
}

/// The pipe left of the start opens right to it.
pub open spec fn joins_w(g: Seq<Seq<Node>>, s: (int, int)) -> bool {
    s.1 > 0 && g[s.0][s.1 - 1].e
}

/// The pipe right of the start opens left to it.
pub open spec fn joins_e(g: Seq<Seq<Node>>, s: (int, int)) -> bool {
    s.1 < g[0].len() - 1 && g[s.0][s.1 + 1].w
}

/// The start node given the pipe that joins its neighbours, at distance 0.
pub open spec fn patched(g: Seq<Seq<Node>>, s: (int, int)) -> Seq<Seq<Node>> {
    g.update(
        s.0,
        g[s.0].update(
            s.1,
            Node { n: joins_n(g, s), s: joins_s(g, s), e: joins_e(g, s), w: joins_w(g, s), d1: Some(0), d2: Some(0) },
        ),
    )
}

/// The neighbours of the start that join it, in the order above, below,
/// left, right.
pub open spec fn joined(g: Seq<Seq<Node>>, s: (int, int)) -> Seq<(int, int)> {
    (if joins_n(g, s) { seq![(s.0 - 1, s.1)] } else { Seq::empty() })
        + (if joins_s(g, s) { seq![(s.0 + 1, s.1)] } else { Seq::empty() })
        + (if joins_w(g, s) { seq![(s.0, s.1 - 1)] } else { Seq::empty() })
        + (if joins_e(g, s) { seq![(s.0, s.1 + 1)] } else { Seq::empty() })
}

/// The square of the `S`: the first `S` on the last line that has one, or
/// the top left corner when there is none.
pub open spec fn s_square(lines: Seq<Seq<char>>) -> (int, int)
    decreases lines.len(),
{
    if lines.len() == 0 {
        (0, 0)
    } else {
        match find_spec(lines.last(), 'S') {
            Some(k) => (lines.len() - 1, k),
            None => s_square(lines.drop_last()),
        }
    }
}

/// The nodes of each line.
pub open spec fn rows_of(lines: Seq<Seq<char>>) -> Seq<Seq<Node>> {
    lines.map_values(|l: Seq<char>| l.map_values(|c: char| node_of(c)))
}

/// The maze the lines draw can have its start patched.
pub open spec fn readable(lines: Seq<String>) -> bool {
    let rows = nonblank(views_of(lines));
    patchable(rows_of(rows), s_square(rows))
}

impl Input {
    /// Reads the maze from its lines (blank lines skipped, each trimmed)
    /// and gives the start the pipe that joins its neighbours.
    pub fn read(lines: &Vec<String>) -> (r: Input)
        requires
            readable(lines@),
        ensures
            start_of(&r) == s_square(nonblank(views_of(lines@))),
            grid(&r) == patched(rows_of(nonblank(views_of(lines@))), s_square(nonblank(views_of(lines@)))),
    {
        let nb = nonblank_lines(lines);
        let ghost rows = views_of(nb@);
        let mut start: (usize, usize) = (0, 0);
        let mut map: Vec<Vec<Node>> = Vec::new();
        let mut i: usize = 0;
        while i < nb.len()
            invariant
                rows == views_of(nb@),
                i <= nb.len(),
                map@.len() == i,
                forall|k: int| 0 <= k < i ==> #[trigger] map@[k]@ == rows[k].map_values(|c: char| node_of(c)),
                (start.0 as int, start.1 as int) == s_square(rows.take(i as int)),
            decreases nb.len() - i,
        {
            let cs = chars_of(nb[i].as_str());
            let mut row: Vec<Node> = Vec::new();
            let mut j: usize = 0;
            while j < cs.len()
                invariant
                    j <= cs.len(),
                    row@ == cs@.take(j as int).map_values(|c: char| node_of(c)),
                decreases cs.len() - j,
            {
                row.push(Node::from_char(cs[j]));
                j = j + 1;
                assert(row@ =~= cs@.take(j as int).map_values(|c: char| node_of(c)));
            }
            assert(cs@.take(j as int) =~= cs@);
            map.push(row);
            let f = find_char(nb[i].as_str(), 'S');
            assert(rows.take(i + 1).drop_last() =~= rows.take(i as int));
            assert(rows.take(i + 1).last() == rows[i as int]);
            if let Some(s) = f {
                start = (i, s);
            }
            i = i + 1;
        }
        assert(rows.take(i as int) =~= rows);
        let mut input = Input { start, map };
        assert(grid(&input) =~= rows_of(rows)) by {
            assert forall|k: int| 0 <= k < rows.len() implies #[trigger] grid(&input)[k] == rows_of(rows)[k] by {}
        }
        input.patch_start();
        input
    }

    /// The node at a square, when the square is on the map.
    pub fn get(&self, rc: (usize, usize)) -> (r: Option<&Node>)
        ensures
            r matches Some(nd) ==> in_grid(grid(self), (rc.0 as int, rc.1 as int)) && *nd == grid(self)[rc.0 as int][rc.1 as int],
            r is None ==> !in_grid(grid(self), (rc.0 as int, rc.1 as int)),
    {
        if rc.0 < self.map.len() {
            if rc.1 < self.map[rc.0].len() {
                return Some(&self.map[rc.0][rc.1]);
            }
        }
        None
    }

    /// Replaces the node at a square on the map.
    fn set_node(&mut self, rc: (usize, usize), nd: Node)
        requires
            in_grid(grid(old(self)), (rc.0 as int, rc.1 as int)),
        ensures
            final(self).start == old(self).start,
            grid(final(self)) == grid(old(self)).update(rc.0 as int, grid(old(self))[rc.0 as int].update(rc.1 as int, nd)),
    {
        let mut row: Vec<Node> = Vec::new();
        std::mem::swap(&mut row, &mut self.map[rc.0]);
        row.set(rc.1, nd);
        std::mem::swap(&mut row, &mut self.map[rc.0]);
        assert(grid(self) =~= grid(old(self)).update(rc.0 as int, grid(old(self))[rc.0 as int].update(rc.1 as int, nd)));
    }

    /// Which of the four neighbours of the start join it.
    fn joins(&self) -> (r: (bool, bool, bool, bool))
        requires
            patchable(grid(self), start_of(self)),
        ensures
            r == (joins_n(grid(self), start_of(self)), joins_s(grid(self), start_of(self)), joins_w(grid(self), start_of(self)), joins_e(grid(self), start_of(self))),
    {
        let ghost g = grid(self);
        let (r, c) = self.start;
        assert(self.map@[r as int]@ == g[r as int]);
        let n = if r > 0 {
            assert(self.map@[r - 1]@ == g[r - 1]);
            self.map[r - 1][c].s
        } else {
            false
        };
        let s = if r < self.map.len() - 1 {
            assert(self.map@[r + 1]@ == g[r + 1]);
            self.map[r + 1][c].n
        } else {
            false
        };
        let w = if c > 0 {
            self.map[r][c - 1].e
        } else {
            false
        };
        assert(self.map@[0]@ == g[0]);
        let e = if c < self.map[0].len() - 1 {
            self.map[r][c + 1].w
        } else {
            false
        };
        (n, s, w, e)
    }

    /// Gives the start the pipe that joins its neighbours, at distance 0
    /// both ways round.
    pub fn patch_start(&mut self)
        requires
            patchable(grid(old(self)), start_of(old(self))),
        ensures
            final(self).start == old(self).start,
            grid(final(self)) == patched(grid(old(self)), start_of(old(self))),
    {
        let (n, s, w, e) = self.joins();
        let nd = Node { n, s, e, w, d1: Some(0), d2: Some(0) };
        self.set_node(self.start, nd);
    }

    /// The two squares next to the start that join it, in the order above,
    /// below, left, right; `BadStart` unless there are exactly two.
    pub fn find_starts(&self) -> (r: Result<((usize, usize), (usize, usize)), PipeError>)
        requires
            patchable(grid(self), start_of(self)),
        ensures
            joined(grid(self), start_of(self)).len() == 2 <==> r is Ok,
            r matches Ok((a, b)) ==> (a.0 as int, a.1 as int) == joined(grid(self), start_of(self))[0] && (b.0 as int, b.1
                as int) == joined(grid(self), start_of(self))[1],
            r matches Err(e) ==> e == PipeError::BadStart,
    {
        let ghost g = grid(self);
        let ghost st = start_of(self);
        let (n, s, w, e) = self.joins();
        let (r, c) = self.start;
        let mut possible: Vec<(usize, usize)> = Vec::new();
        if n {
            possible.push((r - 1, c));
        }
        if s {
            let h = self.map.len();
            assert(r + 1 < h);
            possible.push((r + 1, c));
        }
        if w {
            possible.push((r, c - 1));
        }
        if e {
            assert(c + 1 < g[r as int].len() && g[r as int].len() == self.map@[r as int]@.len() && self.map@[r as int]@.len() == self.map@[r as int].len());
            possible.push((r, c + 1));
        }
        let ghost pv = possible@.map_values(|p: (usize, usize)| (p.0 as int, p.1 as int));
        assert(pv =~= joined(g, st));
        if possible.len() != 2 {
            return Err(PipeError::BadStart);
        }
        assert(pv[0] == (possible@[0].0 as int, possible@[0].1 as int));
        assert(pv[1] == (possible@[1].0 as int, possible@[1].1 as int));
        Ok((possible[0], possible[1]))
    }
}


/// The distance a node holds along the first way round, or the second.
pub open spec fn active(nd: Node, second: bool) -> Option<i64> {
    if second {
        nd.d2
    } else {
        nd.d1
    }
}

/// The node with its distance along one way round replaced.
pub open spec fn with_active(nd: Node, second: bool, v: Option<i64>) -> Node {
    if second {
        Node { d2: v, ..nd }
    } else {
        Node { d1: v, ..nd }
    }
}

/// A step along the pipe of `a` to the square `b` it opens to, both on the
/// map.
pub open spec fn pipe_step(g: Seq<Seq<Node>>, a: (int, int), b: (int, int)) -> bool {
    &&& in_grid(g, a)
    &&& in_grid(g, b)
    &&& {
        let nd = g[a.0][a.1];
        ||| nd.n && b == (a.0 - 1, a.1)
        ||| nd.s && b == (a.0 + 1, a.1)
        ||| nd.e && b == (a.0, a.1 + 1)
        ||| nd.w && b == (a.0, a.1 - 1)
    }
}

/// `w` is a walk along pipes.
pub open spec fn is_pipe_walk(g: Seq<Seq<Node>>, w: Seq<(int, int)>) -> bool {
    &&& w.len() >= 1
    &&& in_grid(g, w[0])
    &&& forall|k: int| 0 <= k < w.len() - 1 ==> pipe_step(g, #[trigger] w[k], w[k + 1])
}

/// Some walk along pipes of `len` squares goes from `a` to `b`.
pub open spec fn walk_of(g: Seq<Seq<Node>>, a: (int, int), b: (int, int), len: int) -> bool {
    exists|w: Seq<(int, int)>| is_pipe_walk(g, w) && w[0] == a && w.last() == b && w.len() == len
}

/// Every square the pipe at `p` opens to holds a distance at most one more
/// than that of `p` (along the given way round; pipes as in `pipes`).
pub open spec fn settled(pipes: Seq<Seq<Node>>, g: Seq<Seq<Node>>, second: bool, p: (int, int)) -> bool {
    forall|b: (int, int)|
        pipe_step(pipes, p, b) ==> match (active(#[trigger] g[b.0][b.1], second), active(g[p.0][p.1], second)) {
            (Some(vb), Some(vp)) => vb <= vp + 1,
            _ => false,
        }
}

/// `g` has the pipes, the shape, and the distances along the other way
/// round, of `g0`.
pub open spec fn same_pipes(g0: Seq<Seq<Node>>, g: Seq<Seq<Node>>, second: bool) -> bool {
    &&& g.len() == g0.len()
    &&& forall|r: int| 0 <= r < g0.len() ==> #[trigger] g[r].len() == g0[r].len()
    &&& forall|r: int, c: int|
        0 <= r < g0.len() && 0 <= c < g0[r].len() ==> #[trigger] g[r][c] == with_active(g0[r][c], second, active(g[r][c], second))
}

/// The map's height and each row's width fit in a `usize`.
pub open spec fn fits(g: Seq<Seq<Node>>) -> bool {
    &&& g.len() <= usize::MAX
    &&& forall|r: int| 0 <= r < g.len() ==> #[trigger] g[r].len() <= usize::MAX
}

pub open spec fn pos(p: (usize, usize)) -> (int, int) {
    (p.0 as int, p.1 as int)
}

/// What spreading distances from `sp` along one way round leaves: the
/// pipes and the other distances as they were, `sp` at distance 1, no
/// other distance grown, and each square whose distance changed (and `sp`)
/// as far from `sp` as some walk along pipes.
pub open spec fn spread_from(g0: Seq<Seq<Node>>, g: Seq<Seq<Node>>, second: bool, sp: (int, int)) -> bool {
    &&& same_pipes(g0, g, second)
    &&& active(g[sp.0][sp.1], second) == Some(1i64)
    &&& forall|r: int, c: int|
        in_grid(g0, (r, c)) && (r, c) != sp && active(g0[r][c], second) is Some ==> match (
            active(#[trigger] g[r][c], second),
            active(g0[r][c], second),
        ) {
            (Some(b), Some(a)) => b <= a,
            _ => false,
        }
    &&& forall|r: int, c: int|
        in_grid(g0, (r, c)) && ((r, c) == sp || active(#[trigger] g[r][c], second) != active(g0[r][c], second)) ==> match active(
            g[r][c],
            second,
        ) {
            Some(v) => walk_of(g0, sp, (r, c), v as int),
            None => false,
        }
}

/// Every square whose distance changed while spreading from `sp` (and
/// `sp` itself) is settled: the spreading is complete.
pub open spec fn spread_settled(g0: Seq<Seq<Node>>, g: Seq<Seq<Node>>, second: bool, sp: (int, int)) -> bool {
    forall|r: int, c: int|
        in_grid(g0, (r, c)) && ((r, c) == sp || active(#[trigger] g[r][c], second) != active(g0[r][c], second)) ==> settled(
            g0,
            g,
            second,
            (r, c),
        )
}

/// What holds while distances spread from `start`: `wk` maps each square
/// given a distance so far to a walk from `start` as long as that
/// distance; `q` holds only such squares; each of them but `hole` that is
/// not waiting in `q` is settled; every other square keeps its distance,
/// and no distance but that of `start` grew.
#[verifier::opaque]
spec fn spread_inv(
    g0: Seq<Seq<Node>>,
    g: Seq<Seq<Node>>,
    second: bool,
    start: (usize, usize),
    wk: Map<(usize, usize), Seq<(int, int)>>,
    q: Seq<(usize, usize)>,
    pops: int,
    hole: Option<(usize, usize)>,
) -> bool {
    &&& fits(g0)
    &&& 0 <= pops < 0x1_0000_0000
    &&& same_pipes(g0, g, second)
    &&& wk.dom().contains(start)
    &&& wk[start] == seq![pos(start)]
    &&& forall|x: (usize, usize)| #[trigger] wk.dom().contains(x) ==> {
        &&& in_grid(g0, pos(x))
        &&& is_pipe_walk(g0, wk[x])
        &&& wk[x][0] == pos(start)
        &&& wk[x].last() == pos(x)
        &&& 1 <= wk[x].len() <= pops + 1
        &&& active(g[x.0 as int][x.1 as int], second) == Some(wk[x].len() as i64)
    }
    &&& forall|i: int| 0 <= i < q.len() ==> wk.dom().contains(#[trigger] q[i])
    &&& forall|x: (usize, usize)| #[trigger] wk.dom().contains(x) && hole != Some(x) && !q.contains(x) ==> settled(g0, g, second, pos(x))
    &&& forall|r: int, c: int|
        in_grid(g0, (r, c)) && !wk.dom().contains((r as usize, c as usize)) ==> #[trigger] active(g[r][c], second) == active(g0[r][c], second)
    &&& forall|r: int, c: int|
        in_grid(g0, (r, c)) && (r, c) != pos(start) && active(g0[r][c], second) is Some ==> match (
            active(#[trigger] g[r][c], second),
            active(g0[r][c], second),
        ) {
            (Some(b), Some(a)) => b <= a,
            _ => false,
        }
}

proof fn lemma_spread_init(g0: Seq<Seq<Node>>, g: Seq<Seq<Node>>, second: bool, start: (usize, usize))
    requires
        in_grid(g0, pos(start)),
        fits(g0),
        g == g0.update(start.0 as int, g0[start.0 as int].update(start.1 as int, with_active(g0[start.0 as int][start.1 as int], second, Some(1i64)))),
    ensures
        spread_inv(g0, g, second, start, map![start => seq![pos(start)]], seq![start], 0, None),
{
    reveal(spread_inv);
    let wk = map![start => seq![pos(start)]];
    let q = seq![start];
    assert(same_pipes(g0, g, second));
    assert(wk.dom().contains(start) && wk[start] == seq![pos(start)]);
    assert forall|x: (usize, usize)| #[trigger] wk.dom().contains(x) implies {
        &&& in_grid(g0, pos(x))
        &&& is_pipe_walk(g0, wk[x])
        &&& wk[x][0] == pos(start)
        &&& wk[x].last() == pos(x)
        &&& 1 <= wk[x].len() <= 0 + 1
        &&& active(g[x.0 as int][x.1 as int], second) == Some(wk[x].len() as i64)
    } by {
        assert(x == start);
    }
    assert forall|i: int| 0 <= i < q.len() implies wk.dom().contains(#[trigger] q[i]) by {}
    assert forall|x: (usize, usize)| #[trigger] wk.dom().contains(x) && None::<(usize, usize)> != Some(x) && !q.contains(x) implies settled(g0, g, second, pos(x)) by {
        assert(x == start);
        assert(q[0] == start);
    }
    assert forall|r: int, c: int|
        in_grid(g0, (r, c)) && (r, c) != pos(start) && active(g0[r][c], second) is Some implies match (
            active(#[trigger] g[r][c], second),
            active(g0[r][c], second),
        ) {
            (Some(b), Some(a)) => b <= a,
            _ => false,
        } by {}
    assert forall|r: int, c: int|
        in_grid(g0, (r, c)) && !wk.dom().contains((r as usize, c as usize)) implies #[trigger] active(g[r][c], second) == active(g0[r][c], second) by {
        assert((r, c) != pos(start));
    }
}

proof fn lemma_spread_pop(
    g0: Seq<Seq<Node>>,
    g: Seq<Seq<Node>>,
    second: bool,
    start: (usize, usize),
    wk: Map<(usize, usize), Seq<(int, int)>>,
    q: Seq<(usize, usize)>,
    pops: int,
)
    requires
        spread_inv(g0, g, second, start, wk, q, pops, None),
        q.len() > 0,
        pops + 1 < 0x1_0000_0000,
    ensures
        spread_inv(g0, g, second, start, wk, q.drop_first(), pops + 1, Some(q[0])),
        wk.dom().contains(q[0]),
        in_grid(g0, pos(q[0])),
        is_pipe_walk(g0, wk[q[0]]),
        wk[q[0]][0] == pos(start),
        wk[q[0]].last() == pos(q[0]),
        1 <= wk[q[0]].len() <= pops + 1,
        active(g[q[0].0 as int][q[0].1 as int], second) == Some(wk[q[0]].len() as i64),
        same_pipes(g0, g, second),
{
    reveal(spread_inv);
    let q2 = q.drop_first();
    assert(wk.dom().contains(q[0]));
    assert forall|x: (usize, usize)| #[trigger] wk.dom().contains(x) && Some(q[0]) != Some(x) && !q2.contains(x) implies settled(g0, g, second, pos(x)) by {
        if q.contains(x) {
            let i = choose|i: int| 0 <= i < q.len() && q[i] == x;
            assert(q2[i - 1] == x);
        }
    }
    assert forall|i: int| 0 <= i < q2.len() implies wk.dom().contains(#[trigger] q2[i]) by {
        assert(q2[i] == q[i + 1]);
    }
}

#[verifier::rlimit(60)]
#[verifier::spinoff_prover]
proof fn lemma_spread_relax(
    g0: Seq<Seq<Node>>,
    g: Seq<Seq<Node>>,
    g2: Seq<Seq<Node>>,
    second: bool,
    start: (usize, usize),
    wk: Map<(usize, usize), Seq<(int, int)>>,
    q: Seq<(usize, usize)>,
    pops: int,
    p: (usize, usize),
    t: (usize, usize),
)
    requires
        spread_inv(g0, g, second, start, wk, q, pops, Some(p)),
        wk.dom().contains(p),
        wk[p].len() <= pops,
        pipe_step(g0, pos(p), pos(t)),
        match active(g[t.0 as int][t.1 as int], second) {
            Some(v) => wk[p].len() + 1 < v,
            None => true,
        },
        g2 == g.update(t.0 as int, g[t.0 as int].update(t.1 as int, with_active(g[t.0 as int][t.1 as int], second, Some((wk[p].len() + 1) as i64)))),
    ensures
        spread_inv(g0, g2, second, start, wk.insert(t, wk[p].push(pos(t))), q.push(t), pops, Some(p)),
        wk.insert(t, wk[p].push(pos(t)))[p] == wk[p],
{
    reveal(spread_inv);
    let wp = wk[p];
    let nw = wp.push(pos(t));
    let wk2 = wk.insert(t, nw);
    let q2 = q.push(t);
    assert(t != start) by {
        assert(active(g[start.0 as int][start.1 as int], second) == Some(1i64));
    }
    assert(t != p);
    assert(is_pipe_walk(g0, nw)) by {
        assert forall|k: int| 0 <= k < nw.len() - 1 implies pipe_step(g0, #[trigger] nw[k], nw[k + 1]) by {
            if k < wp.len() - 1 {
                assert(nw[k] == wp[k] && nw[k + 1] == wp[k + 1]);
            }
        }
    }
    assert(same_pipes(g0, g2, second)) by {
        assert forall|r: int, c: int| 0 <= r < g0.len() && 0 <= c < g0[r].len() implies #[trigger] g2[r][c] == with_active(
            g0[r][c],
            second,
            active(g2[r][c], second),
        ) by {
            assert(g[r][c] == with_active(g0[r][c], second, active(g[r][c], second)));
        }
    }
    assert forall|x: (usize, usize)| #[trigger] wk2.dom().contains(x) implies {
        &&& in_grid(g0, pos(x))
        &&& is_pipe_walk(g0, wk2[x])
        &&& wk2[x][0] == pos(start)
        &&& wk2[x].last() == pos(x)
        &&& 1 <= wk2[x].len() <= pops + 1
        &&& active(g2[x.0 as int][x.1 as int], second) == Some(wk2[x].len() as i64)
    } by {
        if x != t {
            assert(wk.dom().contains(x));
            assert(pos(x) != pos(t));
        }
    }
    assert forall|i: int| 0 <= i < q2.len() implies wk2.dom().contains(#[trigger] q2[i]) by {
        if i < q.len() {
            assert(q2[i] == q[i]);
        }
    }
    assert forall|x: (usize, usize)| #[trigger] wk2.dom().contains(x) && Some(p) != Some(x) && !q2.contains(x) implies settled(g0, g2, second, pos(x)) by {
        assert(x != t) by {
            assert(q2[q.len() as int] == t);
        }
        assert(!q.contains(x)) by {
            if q.contains(x) {
                let i = choose|i: int| 0 <= i < q.len() && q[i] == x;
                assert(q2[i] == x);
            }
        }
        assert(wk.dom().contains(x));
        assert(settled(g0, g, second, pos(x)));
        assert(pos(x) != pos(t));
        assert forall|b: (int, int)| pipe_step(g0, pos(x), b) implies match (
            active(#[trigger] g2[b.0][b.1], second),
            active(g2[pos(x).0][pos(x).1], second),
        ) {
            (Some(vb), Some(vp)) => vb <= vp + 1,
            _ => false,
        } by {
            assert(match (active(g[b.0][b.1], second), active(g[pos(x).0][pos(x).1], second)) {
                (Some(vb), Some(vp)) => vb <= vp + 1,
                _ => false,
            });
        }
    }
    assert forall|r: int, c: int|
        in_grid(g0, (r, c)) && !wk2.dom().contains((r as usize, c as usize)) implies #[trigger] active(g2[r][c], second) == active(g0[r][c], second) by {
        assert((r, c) != pos(t));
    }
    assert forall|r: int, c: int|
        in_grid(g0, (r, c)) && (r, c) != pos(start) && active(g0[r][c], second) is Some implies match (
            active(#[trigger] g2[r][c], second),
            active(g0[r][c], second),
        ) {
            (Some(b), Some(a)) => b <= a,
            _ => false,
        } by {
        assert(match (active(g[r][c], second), active(g0[r][c], second)) {
            (Some(b), Some(a)) => b <= a,
            _ => false,
        });
    }
}

proof fn lemma_spread_settle(
    g0: Seq<Seq<Node>>,
    g: Seq<Seq<Node>>,
    second: bool,
    start: (usize, usize),
    wk: Map<(usize, usize), Seq<(int, int)>>,
    q: Seq<(usize, usize)>,
    pops: int,
    p: (usize, usize),
)
    requires
        spread_inv(g0, g, second, start, wk, q, pops, Some(p)),
        settled(g0, g, second, pos(p)),
    ensures
        spread_inv(g0, g, second, start, wk, q, pops, None),
{
    reveal(spread_inv);
}

#[verifier::rlimit(60)]
#[verifier::spinoff_prover]
proof fn lemma_spread_done(
    g0: Seq<Seq<Node>>,
    g: Seq<Seq<Node>>,
    second: bool,
    start: (usize, usize),
    wk: Map<(usize, usize), Seq<(int, int)>>,
    q: Seq<(usize, usize)>,
    pops: int,
)
    requires
        spread_inv(g0, g, second, start, wk, q, pops, None),
        in_grid(g0, pos(start)),
    ensures
        same_pipes(g0, g, second),
        active(g[start.0 as int][start.1 as int], second) == Some(1i64),
        forall|r: int, c: int|
            in_grid(g0, (r, c)) && (r, c) != pos(start) && active(g0[r][c], second) is Some ==> match (
                active(g[r][c], second),
                active(g0[r][c], second),
            ) {
                (Some(b), Some(a)) => b <= a,
                _ => false,
            },
        forall|r: int, c: int|
            in_grid(g0, (r, c)) && ((r, c) == pos(start) || active(g[r][c], second) != active(g0[r][c], second))
                ==> match active(g[r][c], second) {
                Some(v) => walk_of(g0, pos(start), (r, c), v as int),
                None => false,
            },
        q.len() == 0 ==> forall|r: int, c: int|
            in_grid(g0, (r, c)) && ((r, c) == pos(start) || active(g[r][c], second) != active(g0[r][c], second))
                ==> settled(g0, g, second, (r, c)),
{
    reveal(spread_inv);
    assert forall|r: int, c: int|
        in_grid(g0, (r, c)) && ((r, c) == pos(start) || active(g[r][c], second) != active(g0[r][c], second)) implies {
        &&& wk.dom().contains((r as usize, c as usize))
        &&& pos((r as usize, c as usize)) == (r, c)
    } by {
        if (r, c) == pos(start) {
            assert((r as usize, c as usize) == start);
        }
    }
    assert forall|r: int, c: int|
        in_grid(g0, (r, c)) && ((r, c) == pos(start) || active(g[r][c], second) != active(g0[r][c], second))
            implies match active(g[r][c], second) {
            Some(v) => walk_of(g0, pos(start), (r, c), v as int),
            None => false,
        } by {
        let x = (r as usize, c as usize);
        assert(wk.dom().contains(x));
        let w = wk[x];
        assert(is_pipe_walk(g0, w) && w[0] == pos(start) && w.last() == (r, c));
    }
}

proof fn lemma_same_steps(g0: Seq<Seq<Node>>, g: Seq<Seq<Node>>, second: bool, a: (int, int), b: (int, int))
    requires
        same_pipes(g0, g, second),
    ensures
        pipe_step(g0, a, b) == pipe_step(g, a, b),
{
    if in_grid(g0, a) {
        assert(g[a.0][a.1] == with_active(g0[a.0][a.1], second, active(g[a.0][a.1], second)));
    }
}

impl Input {
    /// The squares the pipe at `p` opens to, in the order above, below,
    /// right, left, leaving out those past the top or left edge.
    fn pipe_targets(&self, p: (usize, usize)) -> (v: Vec<(usize, usize)>)
        requires
            in_grid(grid(self), pos(p)),
        ensures
            forall|k: int| 0 <= k < v@.len() ==> (in_grid(grid(self), pos(#[trigger] v@[k])) ==> pipe_step(grid(self), pos(p), pos(v@[k]))),
            forall|b: (int, int)| pipe_step(grid(self), pos(p), b) ==> exists|k: int| 0 <= k < v@.len() && pos(#[trigger] v@[k]) == b,
    {
        let ghost g = grid(self);
        let nd = self.map[p.0][p.1];
        assert(nd == g[p.0 as int][p.1 as int]);
        let mut possible: Vec<(usize, usize)> = Vec::new();
        let h = self.map.len();
        let w = self.map[p.0].len();
        if nd.n && p.0 > 0 {
            possible.push((p.0 - 1, p.1));
        }
        if nd.s {
            possible.push((p.0 + 1, p.1));
        }
        if nd.e {
            possible.push((p.0, p.1 + 1));
        }
        if nd.w && p.1 > 0 {
            possible.push((p.0, p.1 - 1));
        }
        proof {
            assert forall|b: (int, int)| pipe_step(g, pos(p), b) implies exists|k: int|
                0 <= k < possible@.len() && pos(#[trigger] possible@[k]) == b by {
                let k0 = if nd.n && p.0 > 0 { 1int } else { 0int };
                let k1 = k0 + if nd.s { 1int } else { 0int };
                let k2 = k1 + if nd.e { 1int } else { 0int };
                if nd.n && b == (p.0 - 1, p.1 as int) {
                    assert(pos(possible@[0]) == b);
                } else if nd.s && b == (p.0 + 1, p.1 as int) {
                    assert(pos(possible@[k0]) == b);
                } else if nd.e && b == (p.0 as int, p.1 + 1) {
                    assert(pos(possible@[k1]) == b);
                } else {
                    assert(pos(possible@[k2]) == b);
                }
            }
        }
        possible
    }
}

impl Input {
    /// Spreads distances along pipes from `start`, which gets distance 1,
    /// along one way round: each square a pipe opens to gets one more than
    /// the pipe's square when that is less than what it holds. Returns
    /// whether the distances settled within `limit` rounds.
    pub fn propagate_distance(&mut self, start: (usize, usize), second: bool, limit: u32) -> (done: bool)
        requires
            in_grid(grid(old(self)), pos(start)),
        ensures
            final(self).start == old(self).start,
            spread_from(grid(old(self)), grid(final(self)), second, pos(start)),
            done ==> spread_settled(grid(old(self)), grid(final(self)), second, pos(start)),
    {
        let ghost g0 = grid(self);
        proof {
            assert forall|r: int| 0 <= r < g0.len() implies #[trigger] g0[r].len() <= usize::MAX by {
                assert(g0[r] == self.map@[r]@);
                assert(self.map@[r].len() == self.map@[r]@.len());
            }
            assert(g0.len() == self.map.len());
        }
        let mut q: VecDeque<(usize, usize)> = VecDeque::new();
        q.push_back(start);
        let nd0 = self.map[start.0][start.1];
        assert(nd0 == g0[start.0 as int][start.1 as int]);
        let first = if second { Node { d2: Some(1), ..nd0 } } else { Node { d1: Some(1), ..nd0 } };
        self.set_node(start, first);
        let ghost mut wk: Map<(usize, usize), Seq<(int, int)>> = map![start => seq![pos(start)]];
        proof {
            assert(q@ =~= seq![start]);
            lemma_spread_init(g0, grid(self), second, start);
        }
        let mut pops: u32 = 0;
        let mut done = false;
        while !done
            invariant
                in_grid(g0, pos(start)),
                self.start == old(self).start,
                g0 == grid(old(self)),
                pops <= limit,
                spread_inv(g0, grid(self), second, start, wk, q@, pops as int, None),
                done ==> q@.len() == 0,
            decreases limit - pops + (if done { 0int } else { 1int }),
        {
            if pops >= limit {
                proof {
                    lemma_spread_done(g0, grid(self), second, start, wk, q@, pops as int);
                }
                return false;
            }
            if q.len() == 0 {
                done = true;
            } else {
                let ghost qbefore = q@;
                let p = q.pop_front().unwrap();
                proof {
                    lemma_spread_pop(g0, grid(self), second, start, wk, qbefore, pops as int);
                }
                pops = pops + 1;
                let ghost wp = wk[p];
                let nd = self.map[p.0][p.1];
                assert(nd == grid(self)[p.0 as int][p.1 as int]);
                let d1 = if second { nd.d2.unwrap() } else { nd.d1.unwrap() };
                assert(d1 == wp.len());
                let possible = self.pipe_targets(p);
                proof {
                    assert forall|b: (int, int)| pipe_step(g0, pos(p), b) implies exists|k: int|
                        0 <= k < possible@.len() && pos(#[trigger] possible@[k]) == b by {
                        lemma_same_steps(g0, grid(self), second, pos(p), b);
                    }
                    assert forall|k: int| 0 <= k < possible@.len() && in_grid(g0, pos(#[trigger] possible@[k]))
                        implies pipe_step(g0, pos(p), pos(possible@[k])) by {
                        lemma_same_steps(g0, grid(self), second, pos(p), pos(possible@[k]));
                    }
                }
                let mut j: usize = 0;
                while j < possible.len()
                    invariant
                        in_grid(g0, pos(start)),
                        self.start == old(self).start,
                        g0 == grid(old(self)),
                        pops <= limit,
                        spread_inv(g0, grid(self), second, start, wk, q@, pops as int, Some(p)),
                        wk.dom().contains(p),
                        wk[p] == wp,
                        d1 == wp.len(),
                        1 <= wp.len() <= pops,
                        active(grid(self)[p.0 as int][p.1 as int], second) == Some(d1),
                        j <= possible@.len(),
                        forall|k: int| 0 <= k < possible@.len() ==> (in_grid(g0, pos(#[trigger] possible@[k])) ==> pipe_step(g0, pos(p), pos(possible@[k]))),
                        forall|b: (int, int)| pipe_step(g0, pos(p), b) ==> exists|k: int|
                            0 <= k < possible@.len() && pos(#[trigger] possible@[k]) == b,
                        forall|k: int| 0 <= k < j && in_grid(g0, pos(possible@[k])) ==> match active(
                            #[trigger] grid(self)[possible@[k].0 as int][possible@[k].1 as int], second) {
                            Some(v) => v <= d1 + 1,
                            None => false,
                        },
                    decreases possible@.len() - j,
                {
                    let p2 = possible[j];
                    let ghost g = grid(self);
                    proof {
                        reveal(spread_inv);
                    }
                    if p2.0 < self.map.len() && p2.1 < self.map[p2.0].len() {
                        assert(in_grid(g0, pos(p2)));
                        let n2 = self.map[p2.0][p2.1];
                        assert(n2 == g[p2.0 as int][p2.1 as int]);
                        let cur = if second { n2.d2 } else { n2.d1 };
                        let better = match cur {
                            Some(d2) => d1 + 1 < d2,
                            None => true,
                        };
                        if better {
                            let upd = if second { Node { d2: Some(d1 + 1), ..n2 } } else { Node { d1: Some(d1 + 1), ..n2 } };
                            self.set_node(p2, upd);
                            let ghost qb = q@;
                            q.push_back(p2);
                            proof {
                                lemma_spread_relax(g0, g, grid(self), second, start, wk, qb, pops as int, p, p2);
                                wk = wk.insert(p2, wp.push(pos(p2)));
                            }
                        }
                    }
                    j = j + 1;
                }
                proof {
                    assert(settled(g0, grid(self), second, pos(p))) by {
                        assert forall|b: (int, int)| pipe_step(g0, pos(p), b) implies match (
                            active(#[trigger] grid(self)[b.0][b.1], second),
                            active(grid(self)[pos(p).0][pos(p).1], second),
                        ) {
                            (Some(vb), Some(vp)) => vb <= vp + 1,
                            _ => false,
                        } by {
                            let k = choose|k: int| 0 <= k < possible@.len() && pos(#[trigger] possible@[k]) == b;
                            assert(in_grid(g0, pos(possible@[k])));
                        }
                    }
                    lemma_spread_settle(g0, grid(self), second, start, wk, q@, pops as int, p);
                }
            }
        }
        proof {
            lemma_spread_done(g0, grid(self), second, start, wk, q@, pops as int);
        }
        true
    }
}

/// The larger of a running answer and a node's distance, when it has one.
pub open spec fn max_with(acc: Option<i64>, nd: Node) -> Option<i64> {
    match dist(nd) {
        Some(d) => Some(
            match acc {
                Some(m) => if m >= d {
                    m
                } else {
                    d
                },
                None => d,
            },
        ),
        None => acc,
    }
}

/// The running answer after a row's nodes.
pub open spec fn row_max(acc: Option<i64>, row: Seq<Node>) -> Option<i64>
    decreases row.len(),
{
    if row.len() == 0 {
        acc
    } else {
        max_with(row_max(acc, row.drop_last()), row.last())
    }
}

/// The greatest distance on the map, row by row, if any node has one.
pub open spec fn grid_max(g: Seq<Seq<Node>>) -> Option<i64>
    decreases g.len(),
{
    if g.len() == 0 {
        None
    } else {
        row_max(grid_max(g.drop_last()), g.last())
    }
}

proof fn lemma_row_max_some(acc: Option<i64>, row: Seq<Node>, c: int)
    requires
        acc is Some || (0 <= c < row.len() && dist(row[c]) is Some),
    ensures
        row_max(acc, row) is Some,
    decreases row.len(),
{
    if row.len() > 0 {
        if c == row.len() - 1 && acc is None {
        } else {
            lemma_row_max_some(acc, row.drop_last(), c);
        }
    }
}

/// The greatest distance exists once some node has both distances.
pub proof fn lemma_grid_max_some(g: Seq<Seq<Node>>, r: int, c: int)
    requires
        in_grid(g, (r, c)),
        dist(g[r][c]) is Some,
    ensures
        grid_max(g) is Some,
    decreases g.len(),
{
    if r == g.len() - 1 {
        lemma_row_max_some(grid_max(g.drop_last()), g.last(), c);
    } else {
        lemma_grid_max_some(g.drop_last(), r, c);
        lemma_row_max_some(grid_max(g.drop_last()), g.last(), -1);
    }
}

/// A node with both distances known keeps them through a spreading.
proof fn lemma_spread_keeps(g0: Seq<Seq<Node>>, g: Seq<Seq<Node>>, second: bool, sp: (int, int), r: int, c: int)
    requires
        spread_from(g0, g, second, sp),
        in_grid(g0, (r, c)),
        (r, c) != sp,
        dist(g0[r][c]) is Some,
    ensures
        in_grid(g, (r, c)),
        dist(g[r][c]) is Some,
{
    assert(g[r][c] == with_active(g0[r][c], second, active(g[r][c], second)));
    assert(active(g0[r][c], second) is Some);
}

impl Input {
    /// Spreads distances both ways round the loop from the two squares that
    /// join the start, and returns the greatest distance: how far the
    /// farthest point of the loop is.
    pub fn part1(&mut self) -> (r: Result<i64, PipeError>)
        requires
            patchable(grid(old(self)), start_of(old(self))),
            dist(grid(old(self))[old(self).start.0 as int][old(self).start.1 as int]) is Some,
        ensures
            final(self).start == old(self).start,
            joined(grid(old(self)), start_of(old(self))).len() != 2 <==> r == Err::<i64, PipeError>(PipeError::BadStart),
            r == Err::<i64, PipeError>(PipeError::BadStart) ==> grid(final(self)) == grid(old(self)),
            r matches Ok(ans) ==> exists|mid: Seq<Seq<Node>>|
                {
                    &&& #[trigger] spread_from(grid(old(self)), mid, false, joined(grid(old(self)), start_of(old(self)))[0])
                    &&& spread_settled(grid(old(self)), mid, false, joined(grid(old(self)), start_of(old(self)))[0])
                    &&& spread_from(mid, grid(final(self)), true, joined(grid(old(self)), start_of(old(self)))[1])
                    &&& spread_settled(mid, grid(final(self)), true, joined(grid(old(self)), start_of(old(self)))[1])
                    &&& grid_max(grid(final(self))) == Some(ans)
                },
    {
        let ghost g0 = grid(self);
        let ghost st = start_of(self);
        let (s1, s2) = match self.find_starts() {
            Ok(v) => v,
            Err(e) => {
                return Err(e);
            },
        };
        let ghost j = joined(g0, st);
        assert(pos(s1) == j[0] && pos(s2) == j[1]);
        assert(in_grid(g0, pos(s1)) && in_grid(g0, pos(s2))) by {
            assert(j.len() == 2);
        }
        let done1 = self.propagate_distance(s1, false, 0xffff_ffff);
        let ghost mid = grid(self);
        proof {
            assert(same_pipes(g0, mid, false));
            assert(in_grid(mid, pos(s2)));
        }
        let done2 = self.propagate_distance(s2, true, 0xffff_ffff);
        if !done1 || !done2 {
            return Err(PipeError::SearchLimit);
        }
        let ghost g = grid(self);
        proof {
            assert(pos(s1) != st && pos(s2) != st);
            lemma_spread_keeps(g0, mid, false, pos(s1), st.0, st.1);
            lemma_spread_keeps(mid, g, true, pos(s2), st.0, st.1);
            lemma_grid_max_some(g, st.0, st.1);
        }
        let mut ans: Option<i64> = None;
        let mut i: usize = 0;
        while i < self.map.len()
            invariant
                g == grid(self),
                i <= g.len(),
                ans == grid_max(g.take(i as int)),
            decreases g.len() - i,
        {
            let row = &self.map[i];
            assert(row@ == g[i as int]);
            let ghost before = ans;
            let mut k: usize = 0;
            while k < row.len()
                invariant
                    row@ == g[i as int],
                    k <= row@.len(),
                    ans == row_max(before, row@.take(k as int)),
                decreases row@.len() - k,
            {
                let node = &row[k];
                if let Some(d) = node.d() {
                    ans = Some(
                        match ans {
                            Some(d3) => if d3 >= d {
                                d3
                            } else {
                                d
                            },
                            None => d,
                        },
                    );
                }
                assert(row@.take(k + 1).drop_last() =~= row@.take(k as int));
                k = k + 1;
            }
            assert(row@.take(k as int) =~= row@);
            assert(g.take(i + 1).drop_last() =~= g.take(i as int));
            i = i + 1;
        }
        assert(g.take(i as int) =~= g);
        Ok(ans.unwrap())
    }
}

/// The state of a scan along a row: whether it is inside the loop, and
/// whether it runs along a stretch of the loop entered from below (`F`) or
/// from above (`L`).
pub open spec fn scan_node(st: (bool, bool, bool), nd: Node) -> Option<(bool, bool, bool)> {
    let (inside, above, below) = st;
    if dist(nd) is Some {
        if nd.n && nd.s {
            Some((!inside, above, below))
        } else if nd.w && nd.e {
            if !above && !below {
                None
            } else {
                Some(st)
            }
        } else if nd.n && nd.e {
            if above || below {
                None
            } else {
                Some((inside, above, true))
            }
        } else if nd.n && nd.w {
            if below {
                Some((inside, above, false))
            } else if above {
                Some((!inside, false, below))
            } else {
                None
            }
        } else if nd.s && nd.e {
            if above || below {
                None
            } else {
                Some((inside, true, below))
            }
        } else if nd.s && nd.w {
            if above {
                Some((inside, false, below))
            } else if below {
                Some((!inside, above, false))
            } else {
                None
            }
        } else {
            Some(st)
        }
    } else {
        Some(st)
    }
}

/// Scanning a row from the left: the state at its end and the number of
/// squares off the loop found inside it; `None` where the loop's pipes do
/// not fit together.
pub open spec fn scan_row(row: Seq<Node>) -> Option<((bool, bool, bool), nat)>
    decreases row.len(),
{
    if row.len() == 0 {
        Some(((false, false, false), 0))
    } else {
        match scan_row(row.drop_last()) {
            None => None,
            Some((st, n)) => match scan_node(st, row.last()) {
                None => None,
                Some(st2) => Some((st2, n + if dist(row.last()) is None && st.0 { 1nat } else { 0nat })),
            },
        }
    }
}

/// Every row scans without a misfit.
pub open spec fn scannable(g: Seq<Seq<Node>>) -> bool {
    forall|r: int| 0 <= r < g.len() ==> #[trigger] scan_row(g[r]) is Some
}

/// The number of squares inside the loop, over all rows.
pub open spec fn enclosed(g: Seq<Seq<Node>>) -> nat
    decreases g.len(),
{
    if g.len() == 0 {
        0
    } else {
        enclosed(g.drop_last()) + scan_count(g.last())
    }
}

/// The squares inside the loop that a row's scan counts.
pub open spec fn scan_count(row: Seq<Node>) -> nat {
    match scan_row(row) {
        Some((_, n)) => n,
        None => 0,
    }
}

proof fn lemma_scan_prefix(row: Seq<Node>, k: int)
    requires
        0 <= k <= row.len(),
        scan_row(row) is Some,
    ensures
        scan_row(row.take(k)) is Some,
        scan_count(row.take(k)) <= scan_count(row),
    decreases row.len() - k,
{
    if k < row.len() {
        lemma_scan_prefix(row, k + 1);
        assert(row.take(k + 1).drop_last() =~= row.take(k));
    } else {
        assert(row.take(k) =~= row);
    }
}

proof fn lemma_enclosed_prefix(g: Seq<Seq<Node>>, i: int)
    requires
        0 <= i <= g.len(),
    ensures
        enclosed(g.take(i)) <= enclosed(g),
    decreases g.len() - i,
{
    if i < g.len() {
        lemma_enclosed_prefix(g, i + 1);
        assert(g.take(i + 1).drop_last() =~= g.take(i));
    } else {
        assert(g.take(i) =~= g);
    }
}

proof fn lemma_row_misfit(g: Seq<Seq<Node>>, i: int, k: int)
    requires
        0 <= i < g.len(),
        0 <= k < g[i].len(),
        scan_row(g[i].take(k + 1)) is None,
    ensures
        !scannable(g),
{
    if scannable(g) {
        assert(scan_row(g[i]) is Some);
        lemma_scan_prefix(g[i], k + 1);
    }
}

proof fn lemma_count_overflow(g: Seq<Seq<Node>>, i: int, k: int, total: int, count: int)
    requires
        0 <= i < g.len(),
        0 <= k < g[i].len(),
        total == enclosed(g.take(i)),
        scan_row(g[i].take(k + 1)) matches Some((_, n)) && n == count + 1,
        total + count >= usize::MAX,
    ensures
        !(scannable(g) && enclosed(g) <= usize::MAX),
{
    if scannable(g) {
        assert(scan_row(g[i]) is Some);
        lemma_scan_prefix(g[i], k + 1);
        lemma_enclosed_prefix(g, i + 1);
        assert(g.take(i + 1).drop_last() =~= g.take(i));
        assert(g.take(i + 1).last() == g[i]);
    }
}

impl Input {
    /// Whether every row scans without a misfit and the count of enclosed
    /// squares fits in a `usize`.
    pub fn can_scan(&self) -> (r: bool)
        ensures
            r == (scannable(grid(self)) && enclosed(grid(self)) <= usize::MAX),
    {
        let ghost g = grid(self);
        let mut total: u64 = 0;
        let mut i: usize = 0;
        while i < self.map.len()
            invariant
                g == grid(self),
                i <= g.len(),
                scannable(g.take(i as int)),
                total == enclosed(g.take(i as int)),
                total <= usize::MAX,
            decreases g.len() - i,
        {
            let row = &self.map[i];
            assert(row@ == g[i as int]);
            let mut inside = false;
            let mut above = false;
            let mut below = false;
            let mut count: u64 = 0;
            let mut k: usize = 0;
            while k < row.len()
                invariant
                    g == grid(self),
                    i < g.len(),
                    total == enclosed(g.take(i as int)),
                    row@ == g[i as int],
                    k <= row@.len(),
                    scan_row(row@.take(k as int)) == Some(((inside, above, below), count as nat)),
                    total + count <= usize::MAX,
                    total <= usize::MAX,
                decreases row@.len() - k,
            {
                let node = &row[k];
                assert(row@.take(k + 1).drop_last() =~= row@.take(k as int));
                assert(row@.take(k + 1).last() == *node);
                let stepped = step_scan(node, (inside, above, below));
                let misfit = stepped.is_none();
                if misfit {
                    proof {
                        lemma_row_misfit(g, i as int, k as int);
                    }
                    return false;
                }
                if !node.in_loop() && inside {
                    if total + count >= usize::MAX as u64 {
                        proof {
                            lemma_count_overflow(g, i as int, k as int, total as int, count as int);
                        }
                        return false;
                    }
                    count = count + 1;
                }
                let (ins, ab, be) = stepped.unwrap();
                inside = ins;
                above = ab;
                below = be;
                k = k + 1;
            }
            assert(row@.take(k as int) =~= row@);
            assert(g.take(i + 1).drop_last() =~= g.take(i as int));
            assert(g.take(i + 1).last() == g[i as int]);
            total = total + count;
            assert(scannable(g.take(i + 1))) by {
                assert forall|r: int| 0 <= r < g.take(i + 1).len() implies #[trigger] scan_row(g.take(i + 1)[r]) is Some by {
                    if r < i {
                        assert(g.take(i + 1)[r] == g.take(i as int)[r]);
                    }
                }
            }
            i = i + 1;
        }
        assert(g.take(i as int) =~= g);
        true
    }
}

/// One square of a row scan; `None` where the loop's pipes misfit.
fn step_scan(nd: &Node, st: (bool, bool, bool)) -> (r: Option<(bool, bool, bool)>)
    ensures
        r == scan_node(st, *nd),
{
    let (inside, above, below) = st;
    if nd.in_loop() {
        if nd.n && nd.s {
            Some((!inside, above, below))
        } else if nd.w && nd.e {
            if !above && !below {
                None
            } else {
                Some(st)
            }
        } else if nd.n && nd.e {
            if above || below {
                None
            } else {
                Some((inside, above, true))
            }
        } else if nd.n && nd.w {
            if below {
                Some((inside, above, false))
            } else if above {
                Some((!inside, false, below))
            } else {
                None
            }
        } else if nd.s && nd.e {
            if above || below {
                None
            } else {
                Some((inside, true, below))
            }
        } else if nd.s && nd.w {
            if above {
                Some((inside, false, below))
            } else if below {
                Some((!inside, above, false))
            } else {
                None
            }
        } else {
            Some(st)
        }
    } else {
        Some(st)
    }
}

proof fn lemma_partial_le(g: Seq<Seq<Node>>, i: int, k: int)
    requires
        scannable(g),
        0 <= i < g.len(),
        0 <= k <= g[i].len(),
    ensures
        scan_row(g[i].take(k)) is Some,
        enclosed(g.take(i)) + scan_count(g[i].take(k)) <= enclosed(g),
{
    lemma_scan_prefix(g[i], k);
    lemma_enclosed_prefix(g, i + 1);
    assert(g.take(i + 1).drop_last() =~= g.take(i));
    assert(g.take(i + 1).last() == g[i]);
}

impl Input {
    /// The number of squares enclosed by the loop: each row is scanned
    /// from the left, crossing the loop at each `|` and at each stretch
    /// `F..J` or `L..7`.
    pub fn part2(&self) -> (r: usize)
        requires
            scannable(grid(self)),
            enclosed(grid(self)) <= usize::MAX,
        ensures
            r == enclosed(grid(self)),
    {
        let ghost g = grid(self);
        let mut total: usize = 0;
        let mut i: usize = 0;
        while i < self.map.len()
            invariant
                g == grid(self),
                scannable(g),
                enclosed(g) <= usize::MAX,
                i <= g.len(),
                total == enclosed(g.take(i as int)),
            decreases g.len() - i,
        {
            let row = &self.map[i];
            assert(row@ == g[i as int]);
            let mut inside = false;
            let mut above = false;
            let mut below = false;
            let mut count: usize = 0;
            let mut k: usize = 0;
            while k < row.len()
                invariant
                    g == grid(self),
                    scannable(g),
                    enclosed(g) <= usize::MAX,
                    i < g.len(),
                    total == enclosed(g.take(i as int)),
                    row@ == g[i as int],
                    k <= row@.len(),
                    scan_row(row@.take(k as int)) == Some(((inside, above, below), count as nat)),
                decreases row@.len() - k,
            {
                let node = &row[k];
                assert(row@.take(k + 1).drop_last() =~= row@.take(k as int));
                assert(row@.take(k + 1).last() == *node);
                proof {
                    lemma_partial_le(g, i as int, k + 1);
                }
                let stepped = step_scan(node, (inside, above, below));
                if !node.in_loop() && inside {
                    count = count + 1;
                }
                let (ins, ab, be) = stepped.unwrap();
                inside = ins;
                above = ab;
                below = be;
                k = k + 1;
            }
            assert(row@.take(k as int) =~= row@);
            proof {
                lemma_partial_le(g, i as int, k as int);
            }
            assert(g.take(i + 1).drop_last() =~= g.take(i as int));
            assert(g.take(i + 1).last() == g[i as int]);
            total = total + count;
            i = i + 1;
        }
        assert(g.take(i as int) =~= g);
        total
    }
}

/// Whether the maze the lines draw can have its start patched.
pub fn can_read(lines: &Vec<String>) -> (r: bool)
    ensures
        r == readable(lines@),
{
    let nb = nonblank_lines(lines);
    let ghost rows = views_of(nb@);
    let mut start: (usize, usize) = (0, 0);
    let mut i: usize = 0;
    while i < nb.len()
        invariant
            rows == views_of(nb@),
            i <= nb.len(),
            (start.0 as int, start.1 as int) == s_square(rows.take(i as int)),
            start.0 < nb.len() || (start.0 == 0 && start.1 == 0),
        decreases nb.len() - i,
    {
        let f = find_char(nb[i].as_str(), 'S');
        assert(rows.take(i + 1).drop_last() =~= rows.take(i as int));
        assert(rows.take(i + 1).last() == rows[i as int]);
        if let Some(s) = f {
            start = (i, s);
        }
        i = i + 1;
    }
    assert(rows.take(i as int) =~= rows);
    let ghost g = rows_of(rows);
    let (r, c) = start;
    let h = nb.len();
    if r >= h {
        return false;
    }
    assert(g[r as int].len() == rows[r as int].len());
    let width = nb[r].as_str().unicode_len();
    if c >= width {
        return false;
    }
    let w0 = nb[0].as_str().unicode_len();
    assert(g[0].len() == rows[0].len());
    if w0 < 1 {
        return false;
    }
    if r > 0 {
        assert(g[r - 1].len() == rows[r - 1].len());
        if c >= nb[r - 1].as_str().unicode_len() {
            return false;
        }
    }
    if r < h - 1 {
        assert(g[r + 1].len() == rows[r + 1].len());
        if c >= nb[r + 1].as_str().unicode_len() {
            return false;
        }
    }
    if c < w0 - 1 && c + 1 >= width {
        return false;
    }
    true
}

} // verus!
