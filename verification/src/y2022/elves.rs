//! Unstable diffusion: elves on an infinite grid spread out; each round
//! every crowded elf proposes a step toward the first free side, in an
//! order of sides that turns each round, and moves unless another elf
//! proposed the same spot.
use vstd::prelude::*;
use crate::text::{chars_of, nonblank, nonblank_lines, views_of};

verus! {

/// Errors of this puzzle.
pub enum Error {
    /// A character of the map other than `.` and `#`.
    UnknownChar(char),
}

/// A side of an elf, in the order in which they are considered.
#[derive(Clone, Copy, PartialEq, Eq, Structural)]
pub enum Direction {
    North,
    South,
    West,
    East,
}

/// The side considered after `d`.
pub open spec fn turn(d: Direction) -> Direction {
    match d {
        Direction::North => Direction::South,
        Direction::South => Direction::West,
        Direction::West => Direction::East,
        Direction::East => Direction::North,
    }
}

/// `d` turned `k` times.
pub open spec fn turned(d: Direction, k: nat) -> Direction
    decreases k,
{
    if k == 0 {
        d
    } else {
        turn(turned(d, (k - 1) as nat))
    }
}

impl Direction {
    /// The side considered after this one.
    pub fn next(&self) -> (r: Direction)
        ensures
            r == turn(*self),
    {
        match self {
            Direction::North => Direction::South,
            Direction::South => Direction::West,
            Direction::West => Direction::East,
            Direction::East => Direction::North,
        }
    }
}

/// The sides come round every four turns, and the four in between are
/// all different.
pub proof fn lemma_turn_cycle(d: Direction)
    ensures
        turned(d, 4) == d,
        turned(d, 0) != turned(d, 1),
        turned(d, 0) != turned(d, 2),
        turned(d, 0) != turned(d, 3),
        turned(d, 1) != turned(d, 2),
        turned(d, 1) != turned(d, 3),
        turned(d, 2) != turned(d, 3),
{
    reveal_with_fuel(turned, 5);
}

/// An elf: where it stands, where it means to go, and whether it moved
/// this round.
#[derive(Clone, Copy)]
pub struct Elf {
    pub pos: (i64, i64),
    pub next: (i64, i64),
    pub active: bool,
}

/// The smallest rectangle that holds every elf.
#[derive(Clone, Copy)]
pub struct Bounds {
    pub min_x: i64,
    pub min_y: i64,
    pub max_x: i64,
    pub max_y: i64,
}

/// The elves, the rectangle that holds them, and the side to consider
/// first in the next round.
pub struct Grove {
    pub elves: Vec<Elf>,
    pub bounds: Bounds,
    pub dir: Direction,
}

/// Where the elves stand.
pub open spec fn positions(elves: Seq<Elf>) -> Seq<(int, int)> {
    elves.map_values(|e: Elf| (e.pos.0 as int, e.pos.1 as int))
}

/// Whether an elf stands at `(x, y)`.
pub open spec fn occupied(ps: Seq<(int, int)>, x: int, y: int) -> bool {
    exists|k: int| 0 <= k < ps.len() && ps[k] == (x, y)
}

/// Whether any of the eight spots around `(x, y)` holds an elf.
pub open spec fn crowded(ps: Seq<(int, int)>, x: int, y: int) -> bool {
    ||| occupied(ps, x - 1, y - 1)
    ||| occupied(ps, x, y - 1)
    ||| occupied(ps, x + 1, y - 1)
    ||| occupied(ps, x - 1, y)
    ||| occupied(ps, x + 1, y)
    ||| occupied(ps, x - 1, y + 1)
    ||| occupied(ps, x, y + 1)
    ||| occupied(ps, x + 1, y + 1)
}

/// Whether the three spots on side `d` of `(x, y)` are free.
pub open spec fn side_free(ps: Seq<(int, int)>, x: int, y: int, d: Direction) -> bool {
    match d {
        Direction::North => !occupied(ps, x - 1, y - 1) && !occupied(ps, x, y - 1) && !occupied(
            ps,
            x + 1,
            y - 1,
        ),
        Direction::South => !occupied(ps, x - 1, y + 1) && !occupied(ps, x, y + 1) && !occupied(
            ps,
            x + 1,
            y + 1,
        ),
        Direction::East => !occupied(ps, x + 1, y - 1) && !occupied(ps, x + 1, y) && !occupied(
            ps,
            x + 1,
            y + 1,
        ),
        Direction::West => !occupied(ps, x - 1, y - 1) && !occupied(ps, x - 1, y) && !occupied(
            ps,
            x - 1,
            y + 1,
        ),
    }
}

/// One step from `(x, y)` toward side `d`.
pub open spec fn moved(x: int, y: int, d: Direction) -> (int, int) {
    match d {
        Direction::North => (x, y - 1),
        Direction::South => (x, y + 1),
        Direction::East => (x + 1, y),
        Direction::West => (x - 1, y),
    }
}

/// The step toward the first free side among `d` turned `k`, `k + 1`,
/// ... 3 times, if any.
pub open spec fn proposal_from(ps: Seq<(int, int)>, x: int, y: int, d: Direction, k: nat) -> Option<
    (int, int),
>
    decreases 4 - k,
{
    if k >= 4 {
        None
    } else if side_free(ps, x, y, turned(d, k)) {
        Some(moved(x, y, turned(d, k)))
    } else {
        proposal_from(ps, x, y, d, k + 1)
    }
}

/// What elf `e` proposes: a crowded elf steps toward its first free side.
pub open spec fn proposal(ps: Seq<(int, int)>, d: Direction, e: int) -> Option<(int, int)> {
    let p = ps[e];
    if crowded(ps, p.0, p.1) {
        proposal_from(ps, p.0, p.1, d, 0)
    } else {
        None
    }
}

/// What each elf proposes.
pub open spec fn proposals(ps: Seq<(int, int)>, d: Direction) -> Seq<Option<(int, int)>> {
    Seq::new(ps.len(), |e: int| proposal(ps, d, e))
}

/// How many of the first `n` proposals are `q`.
pub open spec fn count_of(props: Seq<Option<(int, int)>>, q: (int, int), n: nat) -> nat
    decreases n,
{
    if n == 0 {
        0
    } else {
        count_of(props, q, (n - 1) as nat) + if props[n - 1] == Some(q) {
            1nat
        } else {
            0nat
        }
    }
}

/// Where elf `e` stands after the round: at its proposal if it alone made
/// it, else where it was.
pub open spec fn next_pos(ps: Seq<(int, int)>, d: Direction, e: int) -> (int, int) {
    match proposal(ps, d, e) {
        Some(q) => if count_of(proposals(ps, d), q, ps.len()) == 1 {
            q
        } else {
            ps[e]
        },
        None => ps[e],
    }
}

/// Where the elves stand after one round.
pub open spec fn stepped(ps: Seq<(int, int)>, d: Direction) -> Seq<(int, int)> {
    Seq::new(ps.len(), |e: int| next_pos(ps, d, e))
}

/// No two elves share a spot.
pub open spec fn distinct(ps: Seq<(int, int)>) -> bool {
    forall|i: int, j: int| 0 <= i < j < ps.len() ==> ps[i] != ps[j]
}

proof fn lemma_proposal_free(ps: Seq<(int, int)>, x: int, y: int, d: Direction, k: nat)
    ensures
        proposal_from(ps, x, y, d, k) matches Some(q) ==> !occupied(ps, q.0, q.1),
    decreases 4 - k,
{
    if k < 4 && !side_free(ps, x, y, turned(d, k)) {
        lemma_proposal_free(ps, x, y, d, k + 1);
    }
}

proof fn lemma_count_two(props: Seq<Option<(int, int)>>, q: (int, int), i: int, j: int, n: nat)
    requires
        0 <= i < j < n,
        props[i] == Some(q),
        props[j] == Some(q),
    ensures
        count_of(props, q, n) >= 2,
    decreases n,
{
    if j < n - 1 {
        lemma_count_two(props, q, i, j, (n - 1) as nat);
    } else {
        lemma_count_one(props, q, i, (n - 1) as nat);
    }
}

proof fn lemma_count_one(props: Seq<Option<(int, int)>>, q: (int, int), i: int, n: nat)
    requires
        0 <= i < n,
        props[i] == Some(q),
    ensures
        count_of(props, q, n) >= 1,
    decreases n,
{
    if i < n - 1 {
        lemma_count_one(props, q, i, (n - 1) as nat);
    }
}

/// Elves never bump into each other: if no two elves share a spot before
/// a round, no two share one after it.
pub proof fn lemma_step_keeps_distinct(ps: Seq<(int, int)>, d: Direction)
    requires
        distinct(ps),
    ensures
        distinct(stepped(ps, d)),
        stepped(ps, d).len() == ps.len(),
{
    let s = stepped(ps, d);
    assert forall|i: int, j: int| 0 <= i < j < s.len() implies s[i] != s[j] by {
        let pi = ps[i];
        let pj = ps[j];
        lemma_proposal_free(ps, pi.0, pi.1, d, 0);
        lemma_proposal_free(ps, pj.0, pj.1, d, 0);
        let props = proposals(ps, d);
        let moves_i = proposal(ps, d, i) is Some && count_of(props, proposal(ps, d, i)->0, ps.len())
            == 1;
        let moves_j = proposal(ps, d, j) is Some && count_of(props, proposal(ps, d, j)->0, ps.len())
            == 1;
        if moves_i && moves_j {
            if s[i] == s[j] {
                lemma_count_two(props, s[i], i, j, ps.len());
            }
        } else if moves_i {
            assert(s[j] == pj);
            assert(occupied(ps, pj.0, pj.1));
        } else if moves_j {
            assert(s[i] == pi);
            assert(occupied(ps, pi.0, pi.1));
        }
    }
}

/// Pairs of machine integers as pairs of integers.
pub open spec fn pairs(s: Seq<(i64, i64)>) -> Seq<(int, int)> {
    s.map_values(|p: (i64, i64)| (p.0 as int, p.1 as int))
}

/// An optional pair of machine integers as an optional pair of integers.
pub open spec fn opt_pair(o: Option<(i64, i64)>) -> Option<(int, int)> {
    match o {
        Some(p) => Some((p.0 as int, p.1 as int)),
        None => None,
    }
}

/// Coordinates that leave room for a step in every direction.
pub open spec fn roomy(x: int, y: int) -> bool {
    i64::MIN < x < i64::MAX && i64::MIN < y < i64::MAX
}

/// Whether `(x, y)` is one of the spots in `spots`.
pub fn occupied_at(spots: &Vec<(i64, i64)>, x: i64, y: i64) -> (r: bool)
    ensures
        r == occupied(pairs(spots@), x as int, y as int),
{
    let n = spots.len();
    let mut k: usize = 0;
    while k < n
        invariant
            n == spots.len(),
            k <= n,
            forall|j: int| 0 <= j < k ==> pairs(spots@)[j] != (x as int, y as int),
        decreases n - k,
    {
        let (a, b) = spots[k];
        if a == x && b == y {
            assert(pairs(spots@)[k as int] == (x as int, y as int));
            return true;
        }
        assert(pairs(spots@)[k as int] != (x as int, y as int));
        k = k + 1;
    }
    false
}

/// Whether any spot around `(x, y)` holds an elf.
pub fn is_crowded(spots: &Vec<(i64, i64)>, x: i64, y: i64) -> (r: bool)
    requires
        roomy(x as int, y as int),
    ensures
        r == crowded(pairs(spots@), x as int, y as int),
{
    occupied_at(spots, x - 1, y - 1) || occupied_at(spots, x, y - 1) || occupied_at(spots, x + 1, y - 1)
        || occupied_at(spots, x - 1, y) || occupied_at(spots, x + 1, y) || occupied_at(spots, x - 1, y + 1)
        || occupied_at(spots, x, y + 1) || occupied_at(spots, x + 1, y + 1)
}

/// Whether the three spots on side `d` of `(x, y)` are free.
pub fn side_is_free(spots: &Vec<(i64, i64)>, x: i64, y: i64, d: Direction) -> (r: bool)
    requires
        roomy(x as int, y as int),
    ensures
        r == side_free(pairs(spots@), x as int, y as int, d),
{
    match d {
        Direction::North => !occupied_at(spots, x - 1, y - 1) && !occupied_at(spots, x, y - 1)
            && !occupied_at(spots, x + 1, y - 1),
        Direction::South => !occupied_at(spots, x - 1, y + 1) && !occupied_at(spots, x, y + 1)
            && !occupied_at(spots, x + 1, y + 1),
        Direction::East => !occupied_at(spots, x + 1, y - 1) && !occupied_at(spots, x + 1, y)
            && !occupied_at(spots, x + 1, y + 1),
        Direction::West => !occupied_at(spots, x - 1, y - 1) && !occupied_at(spots, x - 1, y)
            && !occupied_at(spots, x - 1, y + 1),
    }
}

/// The step toward the first free side, trying `d` and the three sides
/// after it in turn.
pub fn propose(spots: &Vec<(i64, i64)>, x: i64, y: i64, d: Direction) -> (r: Option<(i64, i64)>)
    requires
        roomy(x as int, y as int),
    ensures
        opt_pair(r) == proposal_from(pairs(spots@), x as int, y as int, d, 0),
{
    let ghost ps = pairs(spots@);
    let mut dir = d;
    let mut k: usize = 0;
    while k < 4
        invariant
            k <= 4,
            ps == pairs(spots@),
            roomy(x as int, y as int),
            dir == turned(d, k as nat),
            proposal_from(ps, x as int, y as int, d, k as nat) == proposal_from(ps, x as int, y as int, d, 0),
        decreases 4 - k,
    {
        if side_is_free(spots, x, y, dir) {
            let q = match dir {
                Direction::North => (x, y - 1),
                Direction::South => (x, y + 1),
                Direction::East => (x + 1, y),
                Direction::West => (x - 1, y),
            };
            return Some(q);
        }
        dir = dir.next();
        k = k + 1;
    }
    None
}

/// Optional pairs of machine integers as optional pairs of integers.
pub open spec fn opts(s: Seq<Option<(i64, i64)>>) -> Seq<Option<(int, int)>> {
    s.map_values(|o: Option<(i64, i64)>| opt_pair(o))
}

proof fn lemma_occupied_push(v: Seq<(i64, i64)>, p: (i64, i64), x: int, y: int)
    ensures
        occupied(pairs(v.push(p)), x, y) == (occupied(pairs(v), x, y) || (p.0 == x && p.1 == y)),
{
    let w = pairs(v.push(p));
    assert(w =~= pairs(v).push((p.0 as int, p.1 as int)));
    if occupied(pairs(v), x, y) {
        let k = choose|k: int| 0 <= k < pairs(v).len() && pairs(v)[k] == (x, y);
        assert(w[k] == (x, y));
    }
    if p.0 == x && p.1 == y {
        assert(w[v.len() as int] == (x, y));
    }
    if occupied(w, x, y) {
        let k = choose|k: int| 0 <= k < w.len() && w[k] == (x, y);
        if k < v.len() {
            assert(pairs(v)[k] == (x, y));
        }
    }
}

/// The spots that two or more elves propose.
pub fn conflicts_of(props: &Vec<Option<(i64, i64)>>) -> (r: Vec<(i64, i64)>)
    ensures
        forall|x: int, y: int|
            #[trigger] occupied(pairs(r@), x, y) <==> count_of(opts(props@), (x, y), props.len() as nat)
                >= 2,
{
    let ghost o = opts(props@);
    let n = props.len();
    let mut proposed: Vec<(i64, i64)> = Vec::new();
    let mut conflicts: Vec<(i64, i64)> = Vec::new();
    let mut k: usize = 0;
    while k < n
        invariant
            n == props.len(),
            o == opts(props@),
            k <= n,
            forall|x: int, y: int|
                #[trigger] occupied(pairs(proposed@), x, y) <==> count_of(o, (x, y), k as nat) >= 1,
            forall|x: int, y: int|
                #[trigger] occupied(pairs(conflicts@), x, y) <==> count_of(o, (x, y), k as nat) >= 2,
        decreases n - k,
    {
        match props[k] {
            Some(q) => {
                let ghost old_p = proposed@;
                let ghost old_c = conflicts@;
                if occupied_at(&proposed, q.0, q.1) {
                    conflicts.push(q);
                } else {
                    proposed.push(q);
                }
                proof {
                    assert(o[k as int] == Some((q.0 as int, q.1 as int)));
                    assert forall|x: int, y: int|
                        #[trigger] occupied(pairs(proposed@), x, y) <==> count_of(o, (x, y), (k + 1) as nat)
                            >= 1 by {
                        lemma_occupied_push(old_p, q, x, y);
                    }
                    assert forall|x: int, y: int|
                        #[trigger] occupied(pairs(conflicts@), x, y) <==> count_of(o, (x, y), (k + 1) as nat)
                            >= 2 by {
                        lemma_occupied_push(old_c, q, x, y);
                        lemma_occupied_push(old_p, q, x, y);
                        assert(occupied(pairs(old_p), x, y) <==> count_of(o, (x, y), k as nat) >= 1);
                    }
                }
            },
            None => {
                proof {
                    assert(o[k as int] == None::<(int, int)>);
                    assert forall|x: int, y: int|
                        #[trigger] occupied(pairs(proposed@), x, y) <==> count_of(o, (x, y), (k + 1) as nat)
                            >= 1 by {
                        assert(count_of(o, (x, y), (k + 1) as nat) == count_of(o, (x, y), k as nat));
                    }
                    assert forall|x: int, y: int|
                        #[trigger] occupied(pairs(conflicts@), x, y) <==> count_of(o, (x, y), (k + 1) as nat)
                            >= 2 by {
                        assert(count_of(o, (x, y), (k + 1) as nat) == count_of(o, (x, y), k as nat));
                    }
                }
            },
        }
        k = k + 1;
    }
    conflicts
}

/// Every elf has room for a step in every direction.
pub open spec fn all_roomy(ps: Seq<(int, int)>) -> bool {
    forall|k: int| 0 <= k < ps.len() ==> roomy(#[trigger] ps[k].0, ps[k].1)
}

/// `b` is the smallest rectangle that holds `ps`; with no elves, the
/// empty rectangle that starts at the far corners.
pub open spec fn bounds_of(b: Bounds, ps: Seq<(int, int)>) -> bool {
    &&& forall|k: int|
        0 <= k < ps.len() ==> b.min_x <= #[trigger] ps[k].0 <= b.max_x && b.min_y <= ps[k].1 <= b.max_y
    &&& ps.len() == 0 ==> b.min_x == i64::MAX && b.min_y == i64::MAX && b.max_x == i64::MIN && b.max_y
        == i64::MIN
    &&& ps.len() > 0 ==> {
        &&& exists|k: int| 0 <= k < ps.len() && ps[k].0 == b.min_x
        &&& exists|k: int| 0 <= k < ps.len() && ps[k].0 == b.max_x
        &&& exists|k: int| 0 <= k < ps.len() && ps[k].1 == b.min_y
        &&& exists|k: int| 0 <= k < ps.len() && ps[k].1 == b.max_y
    }
}

/// The empty rectangle.
pub fn empty_bounds() -> (b: Bounds)
    ensures
        bounds_of(b, Seq::<(int, int)>::empty()),
{
    Bounds { min_x: i64::MAX, min_y: i64::MAX, max_x: i64::MIN, max_y: i64::MIN }
}

/// Widens `b` to hold `(x, y)` as well.
pub fn widen(b: &mut Bounds, x: i64, y: i64)
    ensures
        forall|ps: Seq<(int, int)>|
            bounds_of(*old(b), ps) ==> #[trigger] bounds_of(*final(b), ps.push((x as int, y as int))),
{
    if x < b.min_x {
        b.min_x = x;
    }
    if y < b.min_y {
        b.min_y = y;
    }
    if x > b.max_x {
        b.max_x = x;
    }
    if y > b.max_y {
        b.max_y = y;
    }
    proof {
        assert forall|ps: Seq<(int, int)>| bounds_of(*old(b), ps) implies #[trigger] bounds_of(
            *b,
            ps.push((x as int, y as int)),
        ) by {
            let qs = ps.push((x as int, y as int));
            let n = ps.len() as int;
            assert(qs[n] == (x as int, y as int));
            assert forall|k: int| 0 <= k < qs.len() implies b.min_x <= #[trigger] qs[k].0 <= b.max_x
                && b.min_y <= qs[k].1 <= b.max_y by {
                if k < n {
                    assert(qs[k] == ps[k]);
                }
            }
            if ps.len() > 0 {
                if b.min_x != x {
                    let k = choose|k: int| 0 <= k < ps.len() && ps[k].0 == old(b).min_x;
                    assert(qs[k] == ps[k]);
                }
                if b.max_x != x {
                    let k = choose|k: int| 0 <= k < ps.len() && ps[k].0 == old(b).max_x;
                    assert(qs[k] == ps[k]);
                }
                if b.min_y != y {
                    let k = choose|k: int| 0 <= k < ps.len() && ps[k].1 == old(b).min_y;
                    assert(qs[k] == ps[k]);
                }
                if b.max_y != y {
                    let k = choose|k: int| 0 <= k < ps.len() && ps[k].1 == old(b).max_y;
                    assert(qs[k] == ps[k]);
                }
            }
        }
    }
}

impl Grove {
    /// One round: crowded elves propose, lone proposals are carried out,
    /// the rectangle is recomputed and the order of sides turns.
    pub fn step(&mut self)
        requires
            all_roomy(positions(old(self).elves@)),
        ensures
            positions(final(self).elves@) == stepped(positions(old(self).elves@), old(self).dir),
            final(self).dir == turn(old(self).dir),
            bounds_of(final(self).bounds, positions(final(self).elves@)),
            final(self).elves.len() == old(self).elves.len(),
            forall|k: int|
                0 <= k < final(self).elves.len() ==> {
                    let e = #[trigger] final(self).elves@[k];
                    let p = positions(old(self).elves@)[k];
                    &&& e.active == crowded(positions(old(self).elves@), p.0, p.1)
                    &&& e.active ==> e.next == e.pos
                    &&& !e.active ==> e.next == old(self).elves@[k].next
                },
    {
        let ghost ps = positions(self.elves@);
        let d = self.dir;
        let n = self.elves.len();
        let mut start: Vec<(i64, i64)> = Vec::new();
        let mut k: usize = 0;
        while k < n
            invariant
                n == self.elves.len(),
                ps == positions(self.elves@),
                k <= n,
                pairs(start@) =~= ps.take(k as int),
            decreases n - k,
        {
            let p = self.elves[k].pos;
            let ghost before = start@;
            start.push(p);
            assert(pairs(start@) =~= pairs(before).push((p.0 as int, p.1 as int)));
            assert(ps[k as int] == (p.0 as int, p.1 as int));
            assert(ps.take(k + 1) =~= ps.take(k as int).push(ps[k as int]));
            k = k + 1;
        }
        assert(pairs(start@) =~= ps);
        let mut actives: Vec<bool> = Vec::new();
        let mut props: Vec<Option<(i64, i64)>> = Vec::new();
        let mut k: usize = 0;
        while k < n
            invariant
                n == self.elves.len(),
                n == start.len(),
                ps == pairs(start@),
                all_roomy(ps),
                d == self.dir,
                k <= n,
                actives.len() == k,
                props.len() == k,
                forall|j: int| 0 <= j < k ==> #[trigger] actives@[j] == crowded(ps, ps[j].0, ps[j].1),
                forall|j: int| 0 <= j < k ==> #[trigger] opt_pair(props@[j]) == proposal(ps, d, j),
            decreases n - k,
        {
            let (x, y) = start[k];
            assert(ps[k as int] == (x as int, y as int));
            let a = is_crowded(&start, x, y);
            actives.push(a);
            if a {
                props.push(propose(&start, x, y, d));
            } else {
                props.push(None);
            }
            k = k + 1;
        }
        assert(opts(props@) =~= proposals(ps, d));
        let conflicts = conflicts_of(&props);
        let mut elves: Vec<Elf> = Vec::new();
        let mut bounds = empty_bounds();
        let mut k: usize = 0;
        while k < n
            invariant
                n == self.elves.len(),
                n == start.len(),
                n == actives.len(),
                n == props.len(),
                ps == pairs(start@),
                ps == positions(self.elves@),
                d == self.dir,
                opts(props@) == proposals(ps, d),
                forall|x: int, y: int|
                    #[trigger] occupied(pairs(conflicts@), x, y) <==> count_of(opts(props@), (x, y), n as nat)
                        >= 2,
                forall|j: int| 0 <= j < n ==> #[trigger] actives@[j] == crowded(ps, ps[j].0, ps[j].1),
                forall|j: int| 0 <= j < n ==> #[trigger] opt_pair(props@[j]) == proposal(ps, d, j),
                k <= n,
                elves.len() == k,
                positions(elves@) =~= stepped(ps, d).take(k as int),
                bounds_of(bounds, positions(elves@)),
                forall|j: int|
                    0 <= j < k ==> {
                        let e = #[trigger] elves@[j];
                        &&& e.active == actives@[j]
                        &&& e.active ==> e.next == e.pos
                        &&& !e.active ==> e.next == self.elves@[j].next
                    },
            decreases n - k,
        {
            let old_elf = self.elves[k];
            let a = actives[k];
            let pos = match props[k] {
                Some(q) => {
                    proof {
                        lemma_count_one(opts(props@), (q.0 as int, q.1 as int), k as int, n as nat);
                    }
                    if occupied_at(&conflicts, q.0, q.1) {
                        start[k]
                    } else {
                        q
                    }
                },
                None => start[k],
            };
            assert((pos.0 as int, pos.1 as int) == next_pos(ps, d, k as int));
            let next = if a {
                pos
            } else {
                old_elf.next
            };
            let ghost before = positions(elves@);
            elves.push(Elf { pos: pos, next: next, active: a });
            assert(positions(elves@) =~= before.push((pos.0 as int, pos.1 as int)));
            widen(&mut bounds, pos.0, pos.1);
            k = k + 1;
        }
        self.elves = elves;
        self.bounds = bounds;
        self.dir = self.dir.next();
    }
}

/// The spots marked `#` among the first `n` characters of row `y`.
pub open spec fn row_spots(row: Seq<char>, y: int, n: nat) -> Seq<(int, int)>
    decreases n,
{
    if n == 0 {
        Seq::empty()
    } else if row[n - 1] == '#' {
        row_spots(row, y, (n - 1) as nat).push((n - 1, y))
    } else {
        row_spots(row, y, (n - 1) as nat)
    }
}

/// The spots marked `#` in the first `m` rows, row by row.
pub open spec fn grid_spots(rows: Seq<Seq<char>>, m: nat) -> Seq<(int, int)>
    decreases m,
{
    if m == 0 {
        Seq::empty()
    } else {
        grid_spots(rows, (m - 1) as nat) + row_spots(rows[m - 1], m - 1, rows[m - 1].len())
    }
}

/// A character of the map.
pub open spec fn map_char(c: char) -> bool {
    c == '.' || c == '#'
}

/// `(y, x)` is the first character of the rows, row by row, that is not
/// a map character.
pub open spec fn is_first_bad(rows: Seq<Seq<char>>, y: int, x: int) -> bool {
    &&& 0 <= y < rows.len()
    &&& 0 <= x < rows[y].len()
    &&& !map_char(rows[y][x])
    &&& forall|j: int, i: int| 0 <= j < y && 0 <= i < rows[j].len() ==> map_char(#[trigger] rows[j][i])
    &&& forall|i: int| 0 <= i < x ==> map_char(#[trigger] rows[y][i])
}

/// Every character of the rows is a map character.
pub open spec fn all_map_chars(rows: Seq<Seq<char>>) -> bool {
    forall|j: int, i: int| 0 <= j < rows.len() && 0 <= i < rows[j].len() ==> map_char(#[trigger] rows[j][i])
}

/// Reads the elves from the rows of a map: one elf for each `#`, at its
/// column and row, all of them about to move, with North considered first.
pub fn parse_grove(rows: &Vec<String>) -> (r: Result<Grove, Error>)
    requires
        rows.len() < i64::MAX,
        forall|j: int| 0 <= j < rows.len() ==> (#[trigger] rows@[j])@.len() < i64::MAX,
    ensures
        all_map_chars(views_of(rows@)) ==> (r matches Ok(g) && positions(g.elves@) == grid_spots(
            views_of(rows@),
            rows.len() as nat,
        ) && bounds_of(g.bounds, positions(g.elves@)) && g.dir == Direction::North && forall|k: int|
            0 <= k < g.elves.len() ==> (#[trigger] g.elves@[k]).active && g.elves@[k].next == (0i64, 0i64)),
        !all_map_chars(views_of(rows@)) ==> (r matches Err(Error::UnknownChar(c)) && exists|y: int, x: int|
            is_first_bad(views_of(rows@), y, x) && views_of(rows@)[y][x] == c),
{
    let ghost vs = views_of(rows@);
    let mut elves: Vec<Elf> = Vec::new();
    let mut bounds = empty_bounds();
    let m = rows.len();
    let mut j: usize = 0;
    while j < m
        invariant
            m == rows.len(),
            vs == views_of(rows@),
            m < i64::MAX,
            forall|i: int| 0 <= i < rows.len() ==> (#[trigger] rows@[i])@.len() < i64::MAX,
            j <= m,
            positions(elves@) == grid_spots(vs, j as nat),
            bounds_of(bounds, positions(elves@)),
            forall|k: int| 0 <= k < elves.len() ==> (#[trigger] elves@[k]).active && elves@[k].next == (0i64, 0i64),
            forall|a: int, i: int| 0 <= a < j && 0 <= i < vs[a].len() ==> map_char(#[trigger] vs[a][i]),
        decreases m - j,
    {
        let row = chars_of(rows[j].as_str());
        assert(row@ == vs[j as int]);
        let n = row.len();
        let ghost before = positions(elves@);
        let mut i: usize = 0;
        while i < n
            invariant
                m == rows.len(),
                vs == views_of(rows@),
                j < m,
                m < i64::MAX,
                row@ == vs[j as int],
                n == row.len(),
                n < i64::MAX,
                i <= n,
                before == grid_spots(vs, j as nat),
                positions(elves@) == before + row_spots(row@, j as int, i as nat),
                bounds_of(bounds, positions(elves@)),
                forall|k: int| 0 <= k < elves.len() ==> (#[trigger] elves@[k]).active && elves@[k].next == (0i64, 0i64),
                forall|a: int, b: int| 0 <= a < j && 0 <= b < vs[a].len() ==> map_char(#[trigger] vs[a][b]),
                forall|b: int| 0 <= b < i ==> map_char(#[trigger] vs[j as int][b]),
            decreases n - i,
        {
            let c = row[i];
            if c == '#' {
                let x = i as i64;
                let y = j as i64;
                let ghost prev = positions(elves@);
                elves.push(Elf { pos: (x, y), next: (0, 0), active: true });
                assert(positions(elves@) =~= prev.push((x as int, y as int)));
                widen(&mut bounds, x, y);
                assert(positions(elves@) =~= before + row_spots(row@, j as int, (i + 1) as nat));
            } else if c != '.' {
                proof {
                    assert(is_first_bad(vs, j as int, i as int));
                }
                return Err(Error::UnknownChar(c));
            }
            i = i + 1;
        }
        assert(grid_spots(vs, (j + 1) as nat) == before + row_spots(row@, j as int, n as nat));
        j = j + 1;
    }
    Ok(Grove { elves: elves, bounds: bounds, dir: Direction::North })
}

/// Reads the map from the lines of the input: blank lines are skipped
/// and the others trimmed.
pub fn read_input(lines: &Vec<String>) -> (r: Result<Grove, Error>)
    requires
        lines.len() < i64::MAX,
        forall|j: int| 0 <= j < lines.len() ==> (#[trigger] lines@[j])@.len() < i64::MAX,
    ensures
        all_map_chars(nonblank(views_of(lines@))) ==> (r matches Ok(g) && positions(g.elves@) == grid_spots(
            nonblank(views_of(lines@)),
            nonblank(views_of(lines@)).len(),
        ) && bounds_of(g.bounds, positions(g.elves@)) && g.dir == Direction::North),
        !all_map_chars(nonblank(views_of(lines@))) ==> (r matches Err(Error::UnknownChar(c)) && exists|
            y: int,
            x: int,
        | is_first_bad(nonblank(views_of(lines@)), y, x) && nonblank(views_of(lines@))[y][x] == c),
{
    let rows = nonblank_lines(lines);
    proof {
        lemma_nonblank_bounds(views_of(lines@));
        assert forall|j: int| 0 <= j < rows.len() implies (#[trigger] rows@[j])@.len() < i64::MAX by {
            assert(views_of(rows@)[j] == rows@[j]@);
            assert(views_of(lines@).len() == lines.len());
            assert forall|i: int| 0 <= i < views_of(lines@).len() implies (#[trigger] views_of(lines@)[i]).len() < i64::MAX by {
                assert(views_of(lines@)[i] == lines@[i]@);
            }
        }
    }
    parse_grove(&rows)
}

proof fn lemma_nonblank_bounds(ls: Seq<Seq<char>>)
    ensures
        nonblank(ls).len() <= ls.len(),
        (forall|i: int| 0 <= i < ls.len() ==> (#[trigger] ls[i]).len() < i64::MAX) ==> forall|j: int|
            0 <= j < nonblank(ls).len() ==> (#[trigger] nonblank(ls)[j]).len() < i64::MAX,
    decreases ls.len(),
{
    if ls.len() > 0 {
        lemma_nonblank_bounds(ls.drop_last());
        if forall|i: int| 0 <= i < ls.len() ==> (#[trigger] ls[i]).len() < i64::MAX {
            assert forall|i: int| 0 <= i < ls.drop_last().len() implies (#[trigger] ls.drop_last()[i]).len()
                < i64::MAX by {
                assert(ls.drop_last()[i] == ls[i]);
            }
            crate::text::lemma_trimmed_len(ls.last());
        }
    }
}

/// The free ground in rectangle `b` when `n` elves stand in it.
pub open spec fn empty_ground(b: Bounds, n: int) -> int {
    (b.max_x - b.min_x + 1) * (b.max_y - b.min_y + 1) - n
}

/// The numbers of `empty_ground` fit in `i64`.
pub open spec fn ground_fits(b: Bounds, n: int) -> bool {
    let w = b.max_x - b.min_x + 1;
    let h = b.max_y - b.min_y + 1;
    &&& i64::MIN <= b.max_x - b.min_x <= i64::MAX
    &&& i64::MIN <= b.max_y - b.min_y <= i64::MAX
    &&& n <= i64::MAX
    &&& i64::MIN <= w <= i64::MAX
    &&& i64::MIN <= h <= i64::MAX
    &&& i64::MIN <= w * h <= i64::MAX
    &&& i64::MIN <= w * h - n <= i64::MAX
}

/// The elves after `r` rounds, the first considering side `d` first.
pub open spec fn play(ps: Seq<(int, int)>, d: Direction, r: nat) -> Seq<(int, int)>
    decreases r,
{
    if r == 0 {
        ps
    } else {
        play(stepped(ps, d), turn(d), (r - 1) as nat)
    }
}

/// Every elf stands more than `m` steps from the edge of `i64`.
pub open spec fn within(ps: Seq<(int, int)>, m: int) -> bool {
    forall|k: int|
        0 <= k < ps.len() ==> i64::MIN + m < #[trigger] ps[k].0 < i64::MAX - m && i64::MIN + m < ps[k].1
            < i64::MAX - m
}

proof fn lemma_proposal_near(ps: Seq<(int, int)>, x: int, y: int, d: Direction, k: nat)
    ensures
        proposal_from(ps, x, y, d, k) matches Some(q) ==> x - 1 <= q.0 <= x + 1 && y - 1 <= q.1 <= y + 1,
    decreases 4 - k,
{
    if k < 4 && !side_free(ps, x, y, turned(d, k)) {
        lemma_proposal_near(ps, x, y, d, k + 1);
    }
}

/// In a round an elf moves at most one step.
pub proof fn lemma_step_near(ps: Seq<(int, int)>, d: Direction, m: int)
    requires
        within(ps, m),
        m >= 1,
    ensures
        within(stepped(ps, d), m - 1),
        stepped(ps, d).len() == ps.len(),
{
    assert forall|k: int| 0 <= k < ps.len() implies {
        let q = #[trigger] stepped(ps, d)[k];
        ps[k].0 - 1 <= q.0 <= ps[k].0 + 1 && ps[k].1 - 1 <= q.1 <= ps[k].1 + 1
    } by {
        lemma_proposal_near(ps, ps[k].0, ps[k].1, d, 0);
    }
}

impl Grove {
    /// The free ground in the smallest rectangle that holds every elf.
    pub fn score(&self) -> (r: i64)
        requires
            ground_fits(self.bounds, self.elves.len() as int),
        ensures
            r == empty_ground(self.bounds, self.elves.len() as int),
    {
        let width = (self.bounds.max_x - self.bounds.min_x) + 1;
        let height = (self.bounds.max_y - self.bounds.min_y) + 1;
        let area = width * height;
        area - (self.elves.len() as i64)
    }

    /// Plays `rounds` rounds.
    pub fn play_rounds(&mut self, rounds: u32)
        requires
            within(positions(old(self).elves@), rounds as int),
            bounds_of(old(self).bounds, positions(old(self).elves@)),
        ensures
            positions(final(self).elves@) == play(positions(old(self).elves@), old(self).dir, rounds as nat),
            final(self).dir == turned(old(self).dir, rounds as nat),
            bounds_of(final(self).bounds, positions(final(self).elves@)),
            final(self).elves.len() == old(self).elves.len(),
    {
        let ghost start = positions(self.elves@);
        let ghost d0 = self.dir;
        let mut i: u32 = 0;
        while i < rounds
            invariant
                i <= rounds,
                within(positions(self.elves@), rounds - i),
                play(positions(self.elves@), self.dir, (rounds - i) as nat) == play(start, d0, rounds as nat),
                turned(self.dir, (rounds - i) as nat) == turned(d0, rounds as nat),
                bounds_of(self.bounds, positions(self.elves@)),
                self.elves.len() == start.len(),
            decreases rounds - i,
        {
            proof {
                lemma_step_near(positions(self.elves@), self.dir, rounds - i);
                lemma_turned_shift(self.dir, (rounds - i - 1) as nat);
                assert forall|k: int| 0 <= k < self.elves.len() implies roomy(
                    #[trigger] positions(self.elves@)[k].0,
                    positions(self.elves@)[k].1,
                ) by {}
            }
            self.step();
            i = i + 1;
        }
    }
}

proof fn lemma_turned_shift(d: Direction, k: nat)
    ensures
        turned(turn(d), k) == turned(d, k + 1),
    decreases k,
{
    reveal_with_fuel(turned, 2);
    if k > 0 {
        lemma_turned_shift(d, (k - 1) as nat);
    }
}

/// Plays ten rounds and returns the free ground in the smallest rectangle
/// that holds every elf.
pub fn process(grove: Grove) -> (r: i64)
    requires
        within(positions(grove.elves@), 10),
        bounds_of(grove.bounds, positions(grove.elves@)),
        forall|b: Bounds|
            #[trigger] bounds_of(b, play(positions(grove.elves@), grove.dir, 10)) ==> ground_fits(
                b,
                grove.elves.len() as int,
            ),
    ensures
        exists|b: Bounds|
            #[trigger] bounds_of(b, play(positions(grove.elves@), grove.dir, 10)) && r == empty_ground(
                b,
                grove.elves.len() as int,
            ),
{
    let mut g = grove;
    g.play_rounds(10);
    g.score()
}

} // verus!
