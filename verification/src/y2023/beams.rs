//! The floor will be lava: a beam of light enters a grid of mirrors (`/`,
//! `\`) and splitters (`|`, `-`); count the tiles it energizes.
use vstd::prelude::*;
use crate::text::{chars_of, nonblank, nonblank_lines, views_of};

verus! {

/// Where a beam is heading.
#[derive(Clone, Copy, PartialEq, Eq, Structural)]
pub enum Direction {
    North,
    South,
    East,
    West,
}

/// A beam on a tile, heading somewhere.
#[derive(Clone, Copy, PartialEq, Eq, Structural)]
pub struct Beam {
    pub x: usize,
    pub y: usize,
    pub dir: Direction,
}

/// A tile: its character and whether a beam has passed it.
#[derive(Clone, Copy, PartialEq, Eq, Structural)]
pub struct Node {
    pub c: char,
    pub on: bool,
}

/// The grid, row by row.
pub struct Input {
    pub map: Vec<Vec<Node>>,
    pub width: usize,
    pub height: usize,
}

/// The characters of the grid.
pub open spec fn chars_view(map: Seq<Vec<Node>>) -> Seq<Seq<char>> {
    map.map_values(|row: Vec<Node>| row@.map_values(|n: Node| n.c))
}

/// Which tiles are energized.
pub open spec fn on_view(map: Seq<Vec<Node>>) -> Seq<Seq<bool>> {
    map.map_values(|row: Vec<Node>| row@.map_values(|n: Node| n.on))
}

impl Input {
    /// A non-empty grid whose rows all have the width.
    pub open spec fn wf(&self) -> bool {
        &&& self.width >= 1
        &&& self.height >= 1
        &&& self.map.len() == self.height
        &&& forall|y: int| 0 <= y < self.height ==> (#[trigger] self.map@[y]).len() == self.width
        &&& self.width * self.height * 4 <= usize::MAX
    }
}

/// A one-beam list when `cond` holds.
pub open spec fn beam_if(cond: bool, b: Beam) -> Seq<Beam> {
    if cond {
        seq![b]
    } else {
        Seq::empty()
    }
}

/// Where a beam goes next from a tile holding `c`, staying in a `w` by `h`
/// grid: on through `.` and along a splitter, turned by a mirror, split in
/// two across a splitter.
pub open spec fn successors(c: char, b: Beam, w: int, h: int) -> Seq<Beam> {
    let (x, y) = (b.x as int, b.y as int);
    match b.dir {
        Direction::North => beam_if((c == '.' || c == '|') && y > 0, Beam { x: b.x, y: (y - 1) as usize, dir: Direction::North })
            + beam_if((c == '/' || c == '-') && x < w - 1, Beam { x: (x + 1) as usize, y: b.y, dir: Direction::East })
            + beam_if((c == '\\' || c == '-') && x > 0, Beam { x: (x - 1) as usize, y: b.y, dir: Direction::West }),
        Direction::South => beam_if((c == '.' || c == '|') && y < h - 1, Beam { x: b.x, y: (y + 1) as usize, dir: Direction::South })
            + beam_if((c == '/' || c == '-') && x > 0, Beam { x: (x - 1) as usize, y: b.y, dir: Direction::West })
            + beam_if((c == '\\' || c == '-') && x < w - 1, Beam { x: (x + 1) as usize, y: b.y, dir: Direction::East }),
        Direction::West => beam_if((c == '.' || c == '-') && x > 0, Beam { x: (x - 1) as usize, y: b.y, dir: Direction::West })
            + beam_if((c == '/' || c == '|') && y < h - 1, Beam { x: b.x, y: (y + 1) as usize, dir: Direction::South })
            + beam_if((c == '\\' || c == '|') && y > 0, Beam { x: b.x, y: (y - 1) as usize, dir: Direction::North }),
        Direction::East => beam_if((c == '.' || c == '-') && x < w - 1, Beam { x: (x + 1) as usize, y: b.y, dir: Direction::East })
            + beam_if((c == '/' || c == '|') && y > 0, Beam { x: b.x, y: (y - 1) as usize, dir: Direction::North })
            + beam_if((c == '\\' || c == '|') && y < h - 1, Beam { x: b.x, y: (y + 1) as usize, dir: Direction::South }),
    }
}

/// `b2` follows `b` in the grid.
pub open spec fn follows(g: Seq<Seq<char>>, w: int, h: int, b: Beam, b2: Beam) -> bool {
    successors(g[b.y as int][b.x as int], b, w, h).contains(b2)
}

/// `p` is a way a beam goes from `start`, each beam following the one
/// before.
pub open spec fn is_path(g: Seq<Seq<char>>, w: int, h: int, start: Beam, p: Seq<Beam>) -> bool {
    &&& p.len() >= 1
    &&& p[0] == start
    &&& forall|i: int| 0 <= i < p.len() - 1 ==> #[trigger] follows(g, w, h, p[i], p[i + 1])
}

/// `b` is reached from `start`.
pub open spec fn reachable(g: Seq<Seq<char>>, w: int, h: int, start: Beam, b: Beam) -> bool {
    exists|p: Seq<Beam>| #[trigger] is_path(g, w, h, start, p) && p.last() == b
}

/// A beam inside the grid.
pub open spec fn in_grid(b: Beam, w: int, h: int) -> bool {
    b.x < w && b.y < h
}

/// The number of a direction.
pub open spec fn dir_num(d: Direction) -> int {
    match d {
        Direction::North => 0,
        Direction::South => 1,
        Direction::East => 2,
        Direction::West => 3,
    }
}

/// The slot of a beam in a table of all beams of the grid.
pub open spec fn slot(b: Beam, w: int) -> int {
    (b.y * w + b.x) * 4 + dir_num(b.dir)
}

proof fn lemma_successors_in_grid(c: char, b: Beam, w: int, h: int)
    requires
        in_grid(b, w, h),
    ensures
        forall|i: int| 0 <= i < successors(c, b, w, h).len() ==> in_grid(#[trigger] successors(c, b, w, h)[i], w, h),
        successors(c, b, w, h).len() <= 3,
{
}

proof fn lemma_slot(b: Beam, w: int, h: int)
    requires
        in_grid(b, w, h),
        w >= 1,
    ensures
        0 <= slot(b, w) < w * h * 4,
        forall|b2: Beam| in_grid(b2, w, h) && #[trigger] slot(b2, w) == slot(b, w) ==> b2 == b,
{
    assert(0 <= slot(b, w) < w * h * 4) by (nonlinear_arith)
        requires
            0 <= b.x < w,
            0 <= b.y < h,
            0 <= dir_num(b.dir) < 4,
            slot(b, w) == (b.y * w + b.x) * 4 + dir_num(b.dir),
    {
        assert(b.y * w + b.x < w * h) by (nonlinear_arith)
            requires
                0 <= b.x < w,
                0 <= b.y < h,
        {
            assert(b.y * w + w <= h * w);
        }
    }
    assert forall|b2: Beam| in_grid(b2, w, h) && #[trigger] slot(b2, w) == slot(b, w) implies b2 == b by {
        let p = b.y * w + b.x;
        let p2 = b2.y * w + b2.x;
        assert(p2 == p && dir_num(b2.dir) == dir_num(b.dir));
        assert(b2.y == b.y && b2.x == b.x) by (nonlinear_arith)
            requires
                p2 == b2.y * w + b2.x,
                p == b.y * w + b.x,
                p2 == p,
                0 <= b.x < w,
                0 <= b2.x < w,
                b.y >= 0,
                b2.y >= 0,
        {
            if b2.y < b.y {
                assert(b2.y * w + w <= b.y * w);
            } else if b2.y > b.y {
                assert(b.y * w + w <= b2.y * w);
            }
        }
    }
}

/// How many entries of `s` are false.
pub open spec fn count_false(s: Seq<bool>) -> nat
    decreases s.len(),
{
    if s.len() == 0 {
        0
    } else {
        count_false(s.drop_last()) + if s.last() { 0nat } else { 1nat }
    }
}

proof fn lemma_count_false_set(s: Seq<bool>, i: int)
    requires
        0 <= i < s.len(),
        !s[i],
    ensures
        count_false(s.update(i, true)) + 1 == count_false(s),
    decreases s.len(),
{
    if i < s.len() - 1 {
        assert(s.update(i, true).drop_last() =~= s.drop_last().update(i, true));
        lemma_count_false_set(s.drop_last(), i);
    } else {
        assert(s.update(i, true).drop_last() =~= s.drop_last());
    }
}

proof fn lemma_count_false_bound(s: Seq<bool>)
    ensures
        count_false(s) <= s.len(),
    decreases s.len(),
{
    if s.len() > 0 {
        lemma_count_false_bound(s.drop_last());
    }
}

proof fn lemma_count_false_all(n: nat)
    ensures
        count_false(Seq::new(n, |i: int| false)) == n,
    decreases n,
{
    if n > 0 {
        assert(Seq::new(n, |i: int| false).drop_last() =~= Seq::new((n - 1) as nat, |i: int| false));
        lemma_count_false_all((n - 1) as nat);
    }
}

/// Where a beam goes next.
pub fn successors_of(c: char, b: Beam, w: usize, h: usize) -> (r: Vec<Beam>)
    requires
        in_grid(b, w as int, h as int),
    ensures
        r@ == successors(c, b, w as int, h as int),
{
    let mut r: Vec<Beam> = Vec::new();
    match b.dir {
        Direction::North => {
            if (c == '.' || c == '|') && b.y > 0 {
                r.push(Beam { x: b.x, y: b.y - 1, dir: Direction::North });
            }
            if (c == '/' || c == '-') && b.x < w - 1 {
                r.push(Beam { x: b.x + 1, y: b.y, dir: Direction::East });
            }
            if (c == '\\' || c == '-') && b.x > 0 {
                r.push(Beam { x: b.x - 1, y: b.y, dir: Direction::West });
            }
        },
        Direction::South => {
            if (c == '.' || c == '|') && b.y < h - 1 {
                r.push(Beam { x: b.x, y: b.y + 1, dir: Direction::South });
            }
            if (c == '/' || c == '-') && b.x > 0 {
                r.push(Beam { x: b.x - 1, y: b.y, dir: Direction::West });
            }
            if (c == '\\' || c == '-') && b.x < w - 1 {
                r.push(Beam { x: b.x + 1, y: b.y, dir: Direction::East });
            }
        },
        Direction::West => {
            if (c == '.' || c == '-') && b.x > 0 {
                r.push(Beam { x: b.x - 1, y: b.y, dir: Direction::West });
            }
            if (c == '/' || c == '|') && b.y < h - 1 {
                r.push(Beam { x: b.x, y: b.y + 1, dir: Direction::South });
            }
            if (c == '\\' || c == '|') && b.y > 0 {
                r.push(Beam { x: b.x, y: b.y - 1, dir: Direction::North });
            }
        },
        Direction::East => {
            if (c == '.' || c == '-') && b.x < w - 1 {
                r.push(Beam { x: b.x + 1, y: b.y, dir: Direction::East });
            }
            if (c == '/' || c == '|') && b.y > 0 {
                r.push(Beam { x: b.x, y: b.y - 1, dir: Direction::North });
            }
            if (c == '\\' || c == '|') && b.y < h - 1 {
                r.push(Beam { x: b.x, y: b.y + 1, dir: Direction::South });
            }
        },
    }
    assert(r@ =~= successors(c, b, w as int, h as int));
    r
}

impl Input {
    /// Marks tile `(x, y)` energized and returns its character.
    fn energize(&mut self, x: usize, y: usize) -> (c: char)
        requires
            old(self).wf(),
            x < old(self).width,
            y < old(self).height,
        ensures
            final(self).wf(),
            final(self).width == old(self).width,
            final(self).height == old(self).height,
            chars_view(final(self).map@) == chars_view(old(self).map@),
            c == chars_view(old(self).map@)[y as int][x as int],
            forall|yy: int, xx: int|
                0 <= yy < final(self).height && 0 <= xx < final(self).width ==> #[trigger] on_view(final(self).map@)[yy][xx]
                    == (on_view(old(self).map@)[yy][xx] || (yy == y && xx == x)),
    {
        let mut row: Vec<Node> = Vec::new();
        std::mem::swap(&mut row, &mut self.map[y]);
        let node = row[x];
        row.set(x, Node { c: node.c, on: true });
        std::mem::swap(&mut row, &mut self.map[y]);
        proof {
            assert(chars_view(self.map@) =~= chars_view(old(self).map@)) by {
                assert forall|yy: int| 0 <= yy < self.height implies chars_view(self.map@)[yy] =~= chars_view(
                    old(self).map@,
                )[yy] by {}
            }
            assert forall|yy: int, xx: int|
                0 <= yy < self.height && 0 <= xx < self.width implies #[trigger] on_view(self.map@)[yy][xx]
                    == (on_view(old(self).map@)[yy][xx] || (yy == y && xx == x)) by {}
        }
        node.c
    }
}

/// Some beam on tile `(x, y)` is marked in `seen`.
pub open spec fn tile_seen(seen: Seq<bool>, w: int, x: int, y: int) -> bool {
    exists|d: Direction| #[trigger] seen[slot(Beam { x: x as usize, y: y as usize, dir: d }, w)]
}

proof fn lemma_reach_step(g: Seq<Seq<char>>, w: int, h: int, start: Beam, b: Beam, nb: Beam)
    requires
        reachable(g, w, h, start, b),
        follows(g, w, h, b, nb),
    ensures
        reachable(g, w, h, start, nb),
{
    let p = choose|p: Seq<Beam>| #[trigger] is_path(g, w, h, start, p) && p.last() == b;
    let p2 = p.push(nb);
    assert forall|i: int| 0 <= i < p2.len() - 1 implies #[trigger] follows(g, w, h, p2[i], p2[i + 1]) by {
        if i < p.len() - 1 {
            assert(follows(g, w, h, p[i], p[i + 1]));
        }
    }
    assert(is_path(g, w, h, start, p2));
}

/// Every beam of a way from the start is marked in `seen`, when `seen`
/// holds the start and is closed under `follows`.
proof fn lemma_closed_path(g: Seq<Seq<char>>, w: int, h: int, start: Beam, seen: Seq<bool>, p: Seq<Beam>, k: int)
    requires
        w >= 1,
        in_grid(start, w, h),
        seen.len() == w * h * 4,
        seen[slot(start, w)],
        forall|b1: Beam, b2: Beam|
            in_grid(b1, w, h) && #[trigger] seen[slot(b1, w)] && #[trigger] follows(g, w, h, b1, b2) ==> in_grid(b2, w, h)
                && seen[slot(b2, w)],
        is_path(g, w, h, start, p),
        0 <= k < p.len(),
    ensures
        in_grid(p[k], w, h),
        seen[slot(p[k], w)],
    decreases k,
{
    if k > 0 {
        lemma_closed_path(g, w, h, start, seen, p, k - 1);
        let i = k - 1;
        assert(follows(g, w, h, p[i], p[i + 1]));
    }
}

impl Input {
    /// Sends a beam from tile `(x, y)` heading `dir` and energizes every
    /// tile some beam it becomes passes.
    #[verifier::rlimit(100)]
    pub fn fill(&mut self, x: usize, y: usize, dir: Direction)
        requires
            old(self).wf(),
            x < old(self).width,
            y < old(self).height,
        ensures
            final(self).wf(),
            final(self).width == old(self).width,
            final(self).height == old(self).height,
            chars_view(final(self).map@) == chars_view(old(self).map@),
            forall|yy: int, xx: int|
                0 <= yy < final(self).height && 0 <= xx < final(self).width ==> #[trigger] on_view(final(self).map@)[yy][xx]
                    == (on_view(old(self).map@)[yy][xx] || exists|b: Beam|
                    reachable(
                        chars_view(old(self).map@),
                        old(self).width as int,
                        old(self).height as int,
                        Beam { x, y, dir },
                        b,
                    ) && b.x == xx && b.y == yy),
    {
        let w = self.width;
        let h = self.height;
        let ghost g = chars_view(self.map@);
        let ghost on0 = on_view(self.map@);
        let ghost wi = w as int;
        let ghost hi = h as int;
        let start = Beam { x, y, dir };
        let n = w * h * 4;
        let mut seen: Vec<bool> = Vec::new();
        let mut k: usize = 0;
        while k < n
            invariant
                k <= n,
                seen@ == Seq::new(k as nat, |i: int| false),
            decreases n - k,
        {
            seen.push(false);
            k = k + 1;
            assert(seen@ =~= Seq::new(k as nat, |i: int| false));
        }
        proof {
            lemma_count_false_all(n as nat);
            lemma_slot(start, wi, hi);
            assert(is_path(g, wi, hi, start, seq![start]));
            assert forall|b: Beam| in_grid(b, wi, hi) implies !#[trigger] seen@[slot(b, wi)] by {
                lemma_slot(b, wi, hi);
            }
        }
        let mut unseen: usize = n;
        let mut q: Vec<Beam> = Vec::new();
        q.push(start);
        let mut head: usize = 0;
        assert(q@[0] == start);
        while head < q.len()
            invariant
                self.wf(),
                self.width == w,
                self.height == h,
                wi == w,
                hi == h,
                g == chars_view(self.map@),
                n == w * h * 4,
                in_grid(start, wi, hi),
                seen.len() == n,
                unseen == count_false(seen@),
                q.len() <= 1 + 3 * (n - unseen),
                head <= q.len(),
                forall|i: int| 0 <= i < q.len() ==> in_grid(#[trigger] q@[i], wi, hi) && reachable(g, wi, hi, start, q@[i]),
                forall|b: Beam| in_grid(b, wi, hi) && #[trigger] seen@[slot(b, wi)] ==> reachable(g, wi, hi, start, b),
                forall|b1: Beam, b2: Beam|
                    in_grid(b1, wi, hi) && #[trigger] seen@[slot(b1, wi)] && #[trigger] follows(g, wi, hi, b1, b2) ==> in_grid(
                        b2,
                        wi,
                        hi,
                    ) && (seen@[slot(b2, wi)] || exists|i: int| head <= i < q.len() && q@[i] == b2),
                seen@[slot(start, wi)] || exists|i: int| head <= i < q.len() && q@[i] == start,
                forall|yy: int, xx: int|
                    0 <= yy < hi && 0 <= xx < wi ==> #[trigger] on_view(self.map@)[yy][xx] == (on0[yy][xx] || tile_seen(seen@, wi, xx, yy)),
            decreases unseen, q.len() - head,
        {
            let b = q[head];
            assert(reachable(g, wi, hi, start, b));
            head = head + 1;
            proof {
                lemma_slot(b, wi, hi);
                lemma_slot(start, wi, hi);
                lemma_count_false_bound(seen@);
            }
            let d: usize = match b.dir {
                Direction::North => 0,
                Direction::South => 1,
                Direction::East => 2,
                Direction::West => 3,
            };
            let s = (b.y * w + b.x) * 4 + d;
            assert(s as int == slot(b, wi));
            if !seen[s] {
                let ghost seen0 = seen@;
                let ghost map0 = self.map@;
                let ghost q0 = q@;
                let ghost head0 = head;
                proof {
                    lemma_count_false_set(seen@, s as int);
                }
                seen.set(s, true);
                unseen = unseen - 1;
                let c = self.energize(b.x, b.y);
                let next = successors_of(c, b, w, h);
                proof {
                    lemma_successors_in_grid(c, b, wi, hi);
                }
                let mut j: usize = 0;
                while j < next.len()
                    invariant
                        j <= next.len(),
                        next.len() <= 3,
                        q.len() == q0.len() + j,
                        q@.take(q0.len() as int) == q0,
                        forall|i: int| 0 <= i < j ==> q@[q0.len() + i] == next@[i],
                        forall|i: int| 0 <= i < next.len() ==> in_grid(#[trigger] next@[i], wi, hi),
                    decreases next.len() - j,
                {
                    q.push(next[j]);
                    j = j + 1;
                }
                proof {
                    assert forall|i: int| 0 <= i < q.len() implies in_grid(#[trigger] q@[i], wi, hi) && reachable(
                        g,
                        wi,
                        hi,
                        start,
                        q@[i],
                    ) by {
                        if i < q0.len() {
                            assert(q@[i] == q0[i]);
                        } else {
                            let nb = next@[i - q0.len()];
                            assert(q@[i] == nb);
                            assert(follows(g, wi, hi, b, nb));
                            assert(reachable(g, wi, hi, start, b));
                            lemma_reach_step(g, wi, hi, start, b, nb);
                        }
                    }
                    assert forall|b1: Beam| in_grid(b1, wi, hi) && #[trigger] seen@[slot(b1, wi)] implies reachable(
                        g,
                        wi,
                        hi,
                        start,
                        b1,
                    ) by {
                        lemma_slot(b1, wi, hi);
                        if slot(b1, wi) == s {
                            assert(b1 == b);
                        } else {
                            assert(seen0[slot(b1, wi)]);
                        }
                    }
                    assert forall|b1: Beam, b2: Beam|
                        in_grid(b1, wi, hi) && #[trigger] seen@[slot(b1, wi)] && #[trigger] follows(g, wi, hi, b1, b2) implies in_grid(
                            b2,
                            wi,
                            hi,
                        ) && (seen@[slot(b2, wi)] || exists|i: int| head <= i < q.len() && q@[i] == b2) by {
                        lemma_slot(b1, wi, hi);
                        if slot(b1, wi) == s {
                            assert(b1 == b);
                            let i = choose|i: int| 0 <= i < next@.len() && next@[i] == b2;
                            assert(q@[q0.len() + i] == b2);
                        } else {
                            assert(seen0[slot(b1, wi)]);
                            assert(in_grid(b2, wi, hi));
                            lemma_slot(b2, wi, hi);
                            if !seen0[slot(b2, wi)] {
                                let i = choose|i: int| head0 - 1 <= i < q0.len() && q0[i] == b2;
                                if i == head0 - 1 {
                                    assert(b2 == b);
                                } else {
                                    assert(q@[i] == b2);
                                }
                            }
                        }
                    }
                    if !seen0[slot(start, wi)] {
                        let i = choose|i: int| head0 - 1 <= i < q0.len() && q0[i] == start;
                        if i == head0 - 1 {
                            assert(slot(start, wi) == s);
                            assert(seen@[slot(start, wi)]);
                        } else {
                            assert(q@.take(q0.len() as int)[i] == q0[i]);
                            assert(q@[i] == start);
                            assert(head <= i < q.len() && q@[i] == start);
                        }
                    }
                    assert forall|yy: int, xx: int|
                        0 <= yy < hi && 0 <= xx < wi implies #[trigger] on_view(self.map@)[yy][xx] == (on0[yy][xx]
                            || tile_seen(seen@, wi, xx, yy)) by {
                        assert(on_view(map0)[yy][xx] == (on0[yy][xx] || tile_seen(seen0, wi, xx, yy)));
                        if yy == b.y && xx == b.x {
                            assert(Beam { x: xx as usize, y: yy as usize, dir: b.dir } == b);
                            assert(seen@[slot(Beam { x: xx as usize, y: yy as usize, dir: b.dir }, wi)]);
                        } else {
                            assert forall|dd: Direction| #[trigger] seen@[slot(Beam { x: xx as usize, y: yy as usize, dir: dd }, wi)]
                                == seen0[slot(Beam { x: xx as usize, y: yy as usize, dir: dd }, wi)] by {
                                let bb = Beam { x: xx as usize, y: yy as usize, dir: dd };
                                lemma_slot(bb, wi, hi);
                                if slot(bb, wi) == s {
                                    assert(bb == b);
                                }
                            }
                            if tile_seen(seen0, wi, xx, yy) {
                                let dd = choose|dd: Direction| #[trigger] seen0[slot(Beam { x: xx as usize, y: yy as usize, dir: dd }, wi)];
                                assert(seen@[slot(Beam { x: xx as usize, y: yy as usize, dir: dd }, wi)]);
                            }
                            if tile_seen(seen@, wi, xx, yy) {
                                let dd = choose|dd: Direction| #[trigger] seen@[slot(Beam { x: xx as usize, y: yy as usize, dir: dd }, wi)];
                                assert(seen0[slot(Beam { x: xx as usize, y: yy as usize, dir: dd }, wi)]);
                            }
                        }
                    }
                }
            } else {
                proof {
                    if !seen@[slot(start, wi)] {
                        let i = choose|i: int| head - 1 <= i < q.len() && q@[i] == start;
                        if i == head - 1 {
                            assert(start == b);
                            assert(false);
                        } else {
                            assert(head <= i < q.len() && q@[i] == start);
                        }
                    }
                    assert forall|b1: Beam, b2: Beam|
                        in_grid(b1, wi, hi) && #[trigger] seen@[slot(b1, wi)] && #[trigger] follows(g, wi, hi, b1, b2) implies in_grid(
                            b2,
                            wi,
                            hi,
                        ) && (seen@[slot(b2, wi)] || exists|i: int| head <= i < q.len() && q@[i] == b2) by {
                        if !seen@[slot(b2, wi)] {
                            let i = choose|i: int| head - 1 <= i < q.len() && q@[i] == b2;
                            if i == head - 1 {
                                assert(b2 == b);
                            }
                        }
                    }
                }
            }
        }
        proof {
            assert forall|yy: int, xx: int|
                0 <= yy < hi && 0 <= xx < wi implies #[trigger] on_view(self.map@)[yy][xx] == (on0[yy][xx]
                    || exists|bb: Beam| reachable(g, wi, hi, start, bb) && bb.x == xx && bb.y == yy) by {
                if exists|bb: Beam| reachable(g, wi, hi, start, bb) && bb.x == xx && bb.y == yy {
                    let bb = choose|bb: Beam| reachable(g, wi, hi, start, bb) && bb.x == xx && bb.y == yy;
                    let p = choose|p: Seq<Beam>| #[trigger] is_path(g, wi, hi, start, p) && p.last() == bb;
                    lemma_closed_path(g, wi, hi, start, seen@, p, p.len() - 1);
                    assert(seen@[slot(Beam { x: xx as usize, y: yy as usize, dir: bb.dir }, wi)]);
                }
                if tile_seen(seen@, wi, xx, yy) {
                    let dd = choose|dd: Direction| #[trigger] seen@[slot(Beam { x: xx as usize, y: yy as usize, dir: dd }, wi)];
                    let bb = Beam { x: xx as usize, y: yy as usize, dir: dd };
                    assert(reachable(g, wi, hi, start, bb));
                }
            }
        }
    }
}

/// How many entries of `s` are true.
pub open spec fn count_true(s: Seq<bool>) -> nat
    decreases s.len(),
{
    if s.len() == 0 {
        0
    } else {
        count_true(s.drop_last()) + if s.last() { 1nat } else { 0nat }
    }
}

/// How many tiles of the first `n` rows are energized.
pub open spec fn count_lit(rows: Seq<Seq<bool>>, n: nat) -> nat
    decreases n,
{
    if n == 0 || n > rows.len() {
        0
    } else {
        count_lit(rows, (n - 1) as nat) + count_true(rows[n - 1])
    }
}

proof fn lemma_count_true_bound(s: Seq<bool>)
    ensures
        count_true(s) <= s.len(),
    decreases s.len(),
{
    if s.len() > 0 {
        lemma_count_true_bound(s.drop_last());
    }
}

impl Input {
    /// Counts the energized tiles and turns them all off again.
    pub fn score_and_clear(&mut self) -> (r: usize)
        requires
            old(self).wf(),
        ensures
            final(self).wf(),
            final(self).width == old(self).width,
            final(self).height == old(self).height,
            chars_view(final(self).map@) == chars_view(old(self).map@),
            r == count_lit(on_view(old(self).map@), old(self).height as nat),
            forall|yy: int, xx: int|
                0 <= yy < final(self).height && 0 <= xx < final(self).width ==> !#[trigger] on_view(final(self).map@)[yy][xx],
    {
        let ghost on0 = on_view(self.map@);
        let ghost g = chars_view(self.map@);
        let h = self.height;
        let w = self.width;
        let mut score: usize = 0;
        let mut y: usize = 0;
        while y < h
            invariant
                self.wf(),
                self.width == w,
                self.height == h,
                g == chars_view(self.map@),
                on0.len() == h,
                forall|yy: int| 0 <= yy < h ==> (#[trigger] on0[yy]).len() == w,
                y <= h,
                score == count_lit(on0, y as nat),
                score <= y * w,
                forall|yy: int, xx: int| 0 <= yy < y && 0 <= xx < w ==> !#[trigger] on_view(self.map@)[yy][xx],
                forall|yy: int| y <= yy < h ==> #[trigger] on_view(self.map@)[yy] == on0[yy],
            decreases h - y,
        {
            let ghost map0 = self.map@;
            let mut row: Vec<Node> = Vec::new();
            std::mem::swap(&mut row, &mut self.map[y]);
            let ghost row0 = row@;
            assert(row0 == map0[y as int]@);
            assert(on_view(map0)[y as int] =~= row0.map_values(|n: Node| n.on));
            assert(row0.map_values(|n: Node| n.on) == on0[y as int]);
            let mut count: usize = 0;
            let mut x: usize = 0;
            while x < w
                invariant
                    row.len() == w,
                    row0.len() == w,
                    x <= w,
                    count == count_true(row0.map_values(|n: Node| n.on).take(x as int)),
                    count <= x,
                    forall|i: int| 0 <= i < x ==> !(#[trigger] row@[i]).on && row@[i].c == row0[i].c,
                    forall|i: int| x <= i < w ==> #[trigger] row@[i] == row0[i],
                decreases w - x,
            {
                let node = row[x];
                let ghost ons = row0.map_values(|n: Node| n.on);
                assert(ons.take(x + 1).drop_last() =~= ons.take(x as int));
                if node.on {
                    count = count + 1;
                }
                row.set(x, Node { c: node.c, on: false });
                x = x + 1;
            }
            assert(row0.map_values(|n: Node| n.on).take(w as int) =~= on0[y as int]);
            proof {
                assert(score + count <= (y + 1) * w) by (nonlinear_arith)
                    requires
                        score <= y * w,
                        count <= w,
                {
                }
                assert((y + 1) * w <= h * w) by (nonlinear_arith)
                    requires
                        y < h,
                {
                }
            }
            score = score + count;
            std::mem::swap(&mut row, &mut self.map[y]);
            proof {
                assert(self.map@ =~= map0.update(y as int, self.map@[y as int]));
                assert forall|yy: int, xx: int| 0 <= yy < y + 1 && 0 <= xx < w implies !#[trigger] on_view(self.map@)[yy][xx] by {
                    if yy < y {
                        assert(on_view(self.map@)[yy] == on_view(map0)[yy]);
                    } else {
                        assert(on_view(self.map@)[yy][xx] == self.map@[yy]@[xx].on);
                    }
                }
                assert forall|yy: int| y + 1 <= yy < h implies #[trigger] on_view(self.map@)[yy] == on0[yy] by {
                    assert(on_view(self.map@)[yy] == on_view(map0)[yy]);
                }
                assert(chars_view(self.map@) =~= g) by {
                    assert forall|yy: int| 0 <= yy < h implies chars_view(self.map@)[yy] =~= g[yy] by {}
                }
            }
            y = y + 1;
        }
        score
    }
}

/// Which tiles a beam from `start` energizes.
pub open spec fn lit(g: Seq<Seq<char>>, w: int, h: int, start: Beam) -> Seq<Seq<bool>> {
    Seq::new(
        h as nat,
        |yy: int| Seq::new(w as nat, |xx: int| exists|b: Beam| reachable(g, w, h, start, b) && b.x == xx && b.y == yy),
    )
}

/// How many tiles a beam from `start` energizes.
pub open spec fn energized(g: Seq<Seq<char>>, w: int, h: int, start: Beam) -> nat {
    count_lit(lit(g, w, h, start), h as nat)
}

/// The beams that enter from the edges, in the order they are tried: for
/// each column, down from the top and up from the bottom; then for each
/// row, right from the left edge and up from the right edge.
pub open spec fn edge_starts(w: int, h: int) -> Seq<Beam> {
    Seq::new(
        (2 * w + 2 * h) as nat,
        |k: int|
            if k < 2 * w {
                if k % 2 == 0 {
                    Beam { x: (k / 2) as usize, y: 0, dir: Direction::South }
                } else {
                    Beam { x: (k / 2) as usize, y: (h - 1) as usize, dir: Direction::North }
                }
            } else {
                let j = k - 2 * w;
                if j % 2 == 0 {
                    Beam { x: 0, y: (j / 2) as usize, dir: Direction::East }
                } else {
                    Beam { x: (w - 1) as usize, y: (j / 2) as usize, dir: Direction::North }
                }
            },
    )
}

/// The largest number of tiles energized from the first `n` starts.
pub open spec fn best_of(g: Seq<Seq<char>>, w: int, h: int, starts: Seq<Beam>, n: nat) -> nat
    decreases n,
{
    if n == 0 || n > starts.len() {
        0
    } else {
        let e = energized(g, w, h, starts[n - 1]);
        let b = best_of(g, w, h, starts, (n - 1) as nat);
        if e > b { e } else { b }
    }
}

/// No tile is energized.
pub open spec fn all_off(map: Seq<Vec<Node>>, w: int, h: int) -> bool {
    forall|yy: int, xx: int| 0 <= yy < h && 0 <= xx < w ==> !#[trigger] on_view(map)[yy][xx]
}

impl Input {
    /// How many tiles a beam from `(x, y)` heading `dir` energizes; the
    /// grid is left with no tile energized.
    pub fn energized_from(&mut self, x: usize, y: usize, dir: Direction) -> (r: usize)
        requires
            old(self).wf(),
            all_off(old(self).map@, old(self).width as int, old(self).height as int),
            x < old(self).width,
            y < old(self).height,
        ensures
            final(self).wf(),
            final(self).width == old(self).width,
            final(self).height == old(self).height,
            chars_view(final(self).map@) == chars_view(old(self).map@),
            all_off(final(self).map@, final(self).width as int, final(self).height as int),
            r == energized(chars_view(old(self).map@), old(self).width as int, old(self).height as int, Beam { x, y, dir }),
    {
        let ghost g = chars_view(self.map@);
        let ghost w = self.width as int;
        let ghost h = self.height as int;
        self.fill(x, y, dir);
        proof {
            let l = lit(g, w, h, Beam { x, y, dir });
            let o = on_view(self.map@);
            assert(o.len() == h);
            assert forall|yy: int| 0 <= yy < h implies #[trigger] o[yy] =~= l[yy] by {
                assert(o[yy].len() == w);
                assert forall|xx: int| 0 <= xx < w implies o[yy][xx] == l[yy][xx] by {}
            }
            assert(o =~= l);
        }
        self.score_and_clear()
    }
}

/// The number of tiles energized from the top-left corner heading right,
/// and the largest number energized from any edge start.
pub fn process(input: &mut Input) -> (r: (usize, usize))
    requires
        old(input).wf(),
        all_off(old(input).map@, old(input).width as int, old(input).height as int),
        2 * old(input).width + 2 * old(input).height <= usize::MAX,
    ensures
        r.0 == energized(
            chars_view(old(input).map@),
            old(input).width as int,
            old(input).height as int,
            Beam { x: 0, y: 0, dir: Direction::East },
        ),
        r.1 == best_of(
            chars_view(old(input).map@),
            old(input).width as int,
            old(input).height as int,
            edge_starts(old(input).width as int, old(input).height as int),
            (2 * old(input).width + 2 * old(input).height) as nat,
        ),
{
    let ghost g = chars_view(input.map@);
    let w = input.width;
    let h = input.height;
    let ghost starts = edge_starts(w as int, h as int);
    let ans1 = input.energized_from(0, 0, Direction::East);
    let mut best: usize = 0;
    let mut i: usize = 0;
    while i < w
        invariant
            input.wf(),
            input.width == w,
            input.height == h,
            g == chars_view(input.map@),
            all_off(input.map@, w as int, h as int),
            starts == edge_starts(w as int, h as int),
            2 * w + 2 * h <= usize::MAX,
            i <= w,
            best == best_of(g, w as int, h as int, starts, (2 * i) as nat),
            best <= w * h,
        decreases w - i,
    {
        let a = input.energized_from(i, 0, Direction::South);
        assert(starts[2 * i as int] == Beam { x: i, y: 0, dir: Direction::South });
        assert(best_of(g, w as int, h as int, starts, (2 * i + 1) as nat) == if a > best {
            a as nat
        } else {
            best as nat
        });
        proof {
            lemma_energized_bound(g, w as int, h as int, Beam { x: i, y: 0, dir: Direction::South });
        }
        if a > best {
            best = a;
        }
        let b = input.energized_from(i, h - 1, Direction::North);
        assert(starts[2 * i + 1] == Beam { x: i, y: (h - 1) as usize, dir: Direction::North });
        assert(best_of(g, w as int, h as int, starts, (2 * i + 2) as nat) == if b > best {
            b as nat
        } else {
            best as nat
        });
        proof {
            lemma_energized_bound(g, w as int, h as int, Beam { x: i, y: (h - 1) as usize, dir: Direction::North });
        }
        if b > best {
            best = b;
        }
        i = i + 1;
    }
    let mut j: usize = 0;
    while j < h
        invariant
            input.wf(),
            input.width == w,
            input.height == h,
            g == chars_view(input.map@),
            all_off(input.map@, w as int, h as int),
            starts == edge_starts(w as int, h as int),
            2 * w + 2 * h <= usize::MAX,
            j <= h,
            best == best_of(g, w as int, h as int, starts, (2 * w + 2 * j) as nat),
            best <= w * h,
        decreases h - j,
    {
        let a = input.energized_from(0, j, Direction::East);
        assert(starts[2 * w + 2 * j] == Beam { x: 0, y: j, dir: Direction::East });
        assert(best_of(g, w as int, h as int, starts, (2 * w + 2 * j + 1) as nat) == if a > best {
            a as nat
        } else {
            best as nat
        });
        proof {
            lemma_energized_bound(g, w as int, h as int, Beam { x: 0, y: j, dir: Direction::East });
        }
        if a > best {
            best = a;
        }
        let b = input.energized_from(w - 1, j, Direction::North);
        assert(starts[2 * w + 2 * j + 1] == Beam { x: (w - 1) as usize, y: j, dir: Direction::North });
        assert(best_of(g, w as int, h as int, starts, (2 * w + 2 * j + 2) as nat) == if b > best {
            b as nat
        } else {
            best as nat
        });
        proof {
            lemma_energized_bound(g, w as int, h as int, Beam { x: (w - 1) as usize, y: j, dir: Direction::North });
        }
        if b > best {
            best = b;
        }
        j = j + 1;
    }
    (ans1, best)
}

proof fn lemma_count_lit_bound(rows: Seq<Seq<bool>>, n: nat, w: int)
    requires
        n <= rows.len(),
        forall|y: int| 0 <= y < rows.len() ==> (#[trigger] rows[y]).len() == w,
    ensures
        count_lit(rows, n) <= n * w,
    decreases n,
{
    if n > 0 {
        lemma_count_lit_bound(rows, (n - 1) as nat, w);
        lemma_count_true_bound(rows[n - 1]);
        assert(rows[n - 1].len() == w);
        let c = count_lit(rows, (n - 1) as nat);
        let t = count_true(rows[n - 1]);
        assert(c + t <= n * w) by (nonlinear_arith)
            requires
                c <= (n - 1) * w,
                t <= w,
        {
        }
    } else {
        assert(0 * w == 0);
    }
}

proof fn lemma_energized_bound(g: Seq<Seq<char>>, w: int, h: int, start: Beam)
    requires
        w >= 0,
        h >= 0,
    ensures
        energized(g, w, h, start) <= w * h,
{
    lemma_count_lit_bound(lit(g, w, h, start), h as nat, w);
    assert(h * w == w * h) by (nonlinear_arith);
}

/// A row of tiles, none energized, holding the characters `cs`.
fn dark_row(cs: &Vec<char>) -> (row: Vec<Node>)
    ensures
        row.len() == cs.len(),
        forall|t: int| 0 <= t < cs.len() ==> (#[trigger] row@[t]).c == cs@[t] && !row@[t].on,
{
    let mut row: Vec<Node> = Vec::new();
    let n = cs.len();
    let mut j: usize = 0;
    while j < n
        invariant
            n == cs.len(),
            j <= n,
            row.len() == j,
            forall|t: int| 0 <= t < j ==> (#[trigger] row@[t]).c == cs@[t] && !row@[t].on,
        decreases n - j,
    {
        let nd = Node { c: cs[j], on: false };
        let ghost prev = row@;
        row.push(nd);
        proof {
            vstd::seq::axiom_seq_push_len(prev, nd);
            vstd::seq::axiom_seq_push_index_same(prev, nd, prev.len() as int);
            assert forall|t: int| 0 <= t < prev.len() implies #[trigger] row@[t] == prev[t] by {
                vstd::seq::axiom_seq_push_index_different(prev, nd, t);
            }
        }
        j = j + 1;
    }
    row
}

/// Reads the grid: each non-blank line, trimmed, is a row; no tile is
/// energized; the width is that of the first row.
pub fn read_input(lines: &Vec<String>) -> (r: Input)
    requires
        nonblank(views_of(lines@)).len() > 0,
    ensures
        chars_view(r.map@) == nonblank(views_of(lines@)),
        r.height == nonblank(views_of(lines@)).len(),
        r.width == nonblank(views_of(lines@))[0].len(),
        forall|yy: int, xx: int|
            0 <= yy < r.height && 0 <= xx < r.map@[yy].len() ==> !#[trigger] on_view(r.map@)[yy][xx],
{
    let rows = nonblank_lines(lines);
    let ghost rs = views_of(rows@);
    let mut v: Vec<Vec<Node>> = Vec::new();
    let n = rows.len();
    let mut k: usize = 0;
    while k < n
        invariant
            n == rows.len(),
            rs == views_of(rows@),
            k <= n,
            v.len() == k,
            forall|i: int| 0 <= i < k ==> (#[trigger] v@[i])@.map_values(|nd: Node| nd.c) == rs[i],
            forall|i: int, j: int| 0 <= i < k && 0 <= j < v@[i].len() ==> !(#[trigger] v@[i]@[j]).on,
        decreases n - k,
    {
        let cs = chars_of(rows[k].as_str());
        assert(cs@ == rs[k as int]);
        let row = dark_row(&cs);
        assert(row@.map_values(|nd: Node| nd.c) =~= rs[k as int]);
        v.push(row);
        k = k + 1;
    }
    let height = v.len();
    let width = v[0].len();
    let r = Input { map: v, width, height };
    assert(chars_view(r.map@) =~= rs);
    r
}

} // verus!
