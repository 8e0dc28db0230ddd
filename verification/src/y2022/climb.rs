//! Hill climbing: the fewest steps from `S` to `E` on a height map, where a
//! step may climb at most one level.
use vstd::prelude::*;
use priority_queue::DoublePriorityQueue;
use crate::text::{chars_of, lemma_nonblank_nonempty, nonblank, nonblank_lines, views_of};

verus! {

#[verifier::external_type_specification]
#[verifier::external_body]
#[verifier::reject_recursive_types(I)]
#[verifier::reject_recursive_types(P)]
#[verifier::reject_recursive_types(H)]
pub struct ExDoublePriorityQueue<I, P, H>(priority_queue::DoublePriorityQueue<I, P, H>);

/// The items of a queue, each with its priority.
pub uninterp spec fn dq_items(q: DoublePriorityQueue<(usize, usize), i32>) -> Map<(usize, usize), i32>;

/// An empty queue.
///
/// Calls `DoublePriorityQueue::new`, which makes a queue with no items.
#[verifier::external_body]
fn dq_new() -> (r: DoublePriorityQueue<(usize, usize), i32>)
    ensures
        dq_items(r).dom() == Set::<(usize, usize)>::empty(),
{
    DoublePriorityQueue::new()
}

/// Whether the queue is empty.
///
/// Calls `DoublePriorityQueue::is_empty`, which says whether it holds no
/// item.
#[verifier::external_body]
fn dq_is_empty(q: &DoublePriorityQueue<(usize, usize), i32>) -> (r: bool)
    ensures
        r == (dq_items(*q).dom() == Set::<(usize, usize)>::empty()),
{
    q.is_empty()
}

/// Adds an item with a priority.
///
/// Calls `DoublePriorityQueue::push`; its source inserts the item with the
/// priority, or gives an equal item already there the new priority.
#[verifier::external_body]
fn dq_push(q: &mut DoublePriorityQueue<(usize, usize), i32>, item: (usize, usize), priority: i32)
    ensures
        dq_items(*final(q)) == dq_items(*old(q)).insert(item, priority),
{
    q.push(item, priority);
}

/// Lowers an item's priority, or adds it.
///
/// Calls `DoublePriorityQueue::push_decrease`; its source pushes the item
/// with the priority when the item is not there or has a greater
/// priority, and otherwise leaves the queue as it is.
#[verifier::external_body]
fn dq_push_decrease(q: &mut DoublePriorityQueue<(usize, usize), i32>, item: (usize, usize), priority: i32)
    ensures
        !dq_items(*old(q)).dom().contains(item) || priority < dq_items(*old(q))[item] ==> dq_items(*final(q))
            == dq_items(*old(q)).insert(item, priority),
        dq_items(*old(q)).dom().contains(item) && priority >= dq_items(*old(q))[item] ==> dq_items(*final(q))
            == dq_items(*old(q)),
{
    q.push_decrease(item, priority);
}

/// Takes out an item of the least priority.
///
/// Calls `DoublePriorityQueue::pop_min`; its source removes an item whose
/// priority is the least and returns it with its priority, or returns
/// `None` when the queue is empty. Which of several items of equal
/// priority leaves is not stated.
#[verifier::external_body]
fn dq_pop_min(q: &mut DoublePriorityQueue<(usize, usize), i32>) -> (r: Option<((usize, usize), i32)>)
    ensures
        match r {
            None => dq_items(*old(q)).dom() == Set::<(usize, usize)>::empty() && dq_items(*final(q)) == dq_items(*old(q)),
            Some((item, p)) => {
                &&& dq_items(*old(q)).dom().contains(item)
                &&& dq_items(*old(q))[item] == p
                &&& forall|k: (usize, usize)| dq_items(*old(q)).dom().contains(k) ==> p <= dq_items(*old(q))[k]
                &&& dq_items(*final(q)) == dq_items(*old(q)).remove(item)
            },
        },
{
    q.pop_min()
}

/// The height map: where the walk starts and ends, and each square's
/// elevation, row by row.
pub struct Heightmap {
    pub start: (usize, usize),
    pub end: (usize, usize),
    pub elevation: Vec<Vec<u32>>,
}

/// The elevations, row by row.
pub open spec fn grid(m: &Heightmap) -> Seq<Seq<u32>> {
    m.elevation@.map_values(|r: Vec<u32>| r@)
}

/// The map is a non-empty rectangle of elevations no higher than the
/// largest character, with the start and end on it.
pub open spec fn map_ok(m: &Heightmap) -> bool {
    let g = grid(m);
    &&& g.len() >= 1
    &&& g[0].len() >= 1
    &&& forall|r: int| 0 <= r < g.len() ==> #[trigger] g[r].len() == g[0].len()
    &&& forall|r: int, c: int| 0 <= r < g.len() && 0 <= c < g[0].len() ==> #[trigger] g[r][c] <= 0x10FFFF
    &&& on_map(g, m.start.0 as int, m.start.1 as int)
    &&& on_map(g, m.end.0 as int, m.end.1 as int)
}

pub open spec fn on_map(g: Seq<Seq<u32>>, r: int, c: int) -> bool {
    0 <= r < g.len() && 0 <= c < g[0].len()
}

/// A step from `p` to the square `q` next to it, climbing at most one.
pub open spec fn can_step(g: Seq<Seq<u32>>, p: (int, int), q: (int, int)) -> bool {
    &&& on_map(g, p.0, p.1)
    &&& on_map(g, q.0, q.1)
    &&& ((p.0 == q.0 && (p.1 - q.1 == 1 || q.1 - p.1 == 1)) || (p.1 == q.1 && (p.0 - q.0 == 1 || q.0 - p.0 == 1)))
    &&& g[q.0][q.1] - g[p.0][p.1] <= 1
}

/// `w` is a walk of steps.
pub open spec fn is_walk(g: Seq<Seq<u32>>, w: Seq<(int, int)>) -> bool {
    &&& w.len() >= 1
    &&& on_map(g, w[0].0, w[0].1)
    &&& forall|k: int| 0 <= k < w.len() - 1 ==> can_step(g, #[trigger] w[k], w[k + 1])
}

/// Some walk of `n` steps goes from `a` to `b`.
pub open spec fn reaches(g: Seq<Seq<u32>>, a: (int, int), b: (int, int), n: int) -> bool {
    exists|w: Seq<(int, int)>| is_walk(g, w) && w[0] == a && w.last() == b && w.len() == n + 1
}

/// Whether the square `p2` is at most one higher than `p1`.
pub fn can_move(m: &Heightmap, p1: (usize, usize), p2: (usize, usize)) -> (r: bool)
    requires
        map_ok(m),
        on_map(grid(m), p1.0 as int, p1.1 as int),
        on_map(grid(m), p2.0 as int, p2.1 as int),
    ensures
        r == (grid(m)[p2.0 as int][p2.1 as int] - grid(m)[p1.0 as int][p1.1 as int] <= 1),
{
    let ghost g = grid(m);
    assert(g[p1.0 as int] == m.elevation@[p1.0 as int]@);
    assert(g[p2.0 as int] == m.elevation@[p2.0 as int]@);
    assert(g[p1.0 as int].len() == g[0].len() && g[p2.0 as int].len() == g[0].len());
    assert(g[p1.0 as int][p1.1 as int] <= 0x10FFFF && g[p2.0 as int][p2.1 as int] <= 0x10FFFF);
    ((m.elevation[p2.0][p2.1] as i32) - (m.elevation[p1.0][p1.1] as i32)) <= 1
}

/// The squares a step from `p` can reach: up, left, down, right.
pub open spec fn neighbors_spec(g: Seq<Seq<u32>>, p: (int, int)) -> Seq<(int, int)> {
    let up = if p.0 > 0 && can_step(g, p, (p.0 - 1, p.1)) { seq![(p.0 - 1, p.1)] } else { Seq::empty() };
    let left = if p.1 > 0 && can_step(g, p, (p.0, p.1 - 1)) { seq![(p.0, p.1 - 1)] } else { Seq::empty() };
    let down = if p.0 < g.len() - 1 && can_step(g, p, (p.0 + 1, p.1)) { seq![(p.0 + 1, p.1)] } else { Seq::empty() };
    let right = if p.1 < g[0].len() - 1 && can_step(g, p, (p.0, p.1 + 1)) { seq![(p.0, p.1 + 1)] } else { Seq::empty() };
    up + left + down + right
}

pub open spec fn cells(v: Seq<(usize, usize)>) -> Seq<(int, int)> {
    v.map_values(|p: (usize, usize)| (p.0 as int, p.1 as int))
}

/// The squares a step from `p` can reach.
pub fn neighbors(m: &Heightmap, p: (usize, usize)) -> (r: Vec<(usize, usize)>)
    requires
        map_ok(m),
        on_map(grid(m), p.0 as int, p.1 as int),
    ensures
        cells(r@) == neighbors_spec(grid(m), (p.0 as int, p.1 as int)),
{
    let ghost g = grid(m);
    let ghost q = (p.0 as int, p.1 as int);
    let h = m.elevation.len();
    let w = m.elevation[0].len();
    assert(w == g[0].len());
    let mut n: Vec<(usize, usize)> = Vec::new();
    if p.0 > 0 && can_move(m, p, (p.0 - 1, p.1)) {
        n.push((p.0 - 1, p.1));
    }
    assert(cells(n@) =~= (if q.0 > 0 && can_step(g, q, (q.0 - 1, q.1)) { seq![(q.0 - 1, q.1)] } else { Seq::empty() }));
    let ghost a = cells(n@);
    if p.1 > 0 && can_move(m, p, (p.0, p.1 - 1)) {
        n.push((p.0, p.1 - 1));
    }
    assert(cells(n@) =~= a + (if q.1 > 0 && can_step(g, q, (q.0, q.1 - 1)) { seq![(q.0, q.1 - 1)] } else { Seq::empty() }));
    let ghost b = cells(n@);
    if p.0 < h - 1 && can_move(m, p, (p.0 + 1, p.1)) {
        n.push((p.0 + 1, p.1));
    }
    assert(cells(n@) =~= b + (if q.0 < g.len() - 1 && can_step(g, q, (q.0 + 1, q.1)) { seq![(q.0 + 1, q.1)] } else { Seq::empty() }));
    let ghost c = cells(n@);
    if p.1 < w - 1 && can_move(m, p, (p.0, p.1 + 1)) {
        n.push((p.0, p.1 + 1));
    }
    assert(cells(n@) =~= c + (if q.1 < g[0].len() - 1 && can_step(g, q, (q.0, q.1 + 1)) { seq![(q.0, q.1 + 1)] } else { Seq::empty() }));
    n
}

proof fn lemma_cell(n: int, i: int, j: int, h: int)
    requires
        0 <= i < h,
        0 <= j < n,
    ensures
        0 <= i * n + j < h * n,
        forall|a: int, b: int| 0 <= a < h && 0 <= b < n && (a != i || b != j) ==> #[trigger] (a * n + b) != i * n + j,
{
    assert(0 <= i * n + j < h * n) by (nonlinear_arith)
        requires
            0 <= i < h,
            0 <= j < n,
    ;
    assert forall|a: int, b: int| 0 <= a < h && 0 <= b < n && (a != i || b != j) implies #[trigger] (a * n + b) != i * n
        + j by {
        if a < i {
            assert(a * n + b < i * n + j) by (nonlinear_arith)
                requires
                    0 <= a < i,
                    0 <= b < n,
                    0 <= j,
            ;
        } else if a > i {
            assert(a * n + b > i * n + j) by (nonlinear_arith)
                requires
                    0 <= i < a,
                    0 <= j < n,
                    0 <= b,
            ;
        }
    }
}

/// What the search knows of a square's distance: none yet, or the length
/// of a walk from the start to it.
pub open spec fn known(g: Seq<Seq<u32>>, s: (int, int), c: (int, int), d: i32) -> bool {
    d == i32::MAX || (0 <= d && reaches(g, s, c, d as int))
}

proof fn lemma_extend(g: Seq<Seq<u32>>, s: (int, int), u: (int, int), v: (int, int), d: int)
    requires
        reaches(g, s, u, d),
        can_step(g, u, v),
    ensures
        reaches(g, s, v, d + 1),
{
    let w = choose|w: Seq<(int, int)>| is_walk(g, w) && w[0] == s && w.last() == u && w.len() == d + 1;
    let w2 = w.push(v);
    assert forall|k: int| 0 <= k < w2.len() - 1 implies can_step(g, #[trigger] w2[k], w2[k + 1]) by {
        if k < w.len() - 1 {
            assert(w2[k] == w[k] && w2[k + 1] == w[k + 1]);
        } else {
            assert(w2[k] == u && w2[k + 1] == v);
        }
    }
    assert(is_walk(g, w2));
}

/// The sum of the distances held.
pub open spec fn total(s: Seq<i32>) -> int
    decreases s.len(),
{
    if s.len() == 0 {
        0
    } else {
        total(s.drop_last()) + s.last()
    }
}

proof fn lemma_total_update(s: Seq<i32>, i: int, v: i32)
    requires
        0 <= i < s.len(),
    ensures
        total(s.update(i, v)) == total(s) - s[i] + v,
    decreases s.len(),
{
    if i < s.len() - 1 {
        lemma_total_update(s.drop_last(), i, v);
        assert(s.update(i, v).drop_last() =~= s.drop_last().update(i, v));
    } else {
        assert(s.update(i, v).drop_last() =~= s.drop_last());
    }
}

proof fn lemma_total_bounds(s: Seq<i32>)
    requires
        forall|k: int| 0 <= k < s.len() ==> 0 <= #[trigger] s[k],
    ensures
        0 <= total(s) <= s.len() * (i32::MAX as int),
    decreases s.len(),
{
    if s.len() > 0 {
        assert forall|k: int| 0 <= k < s.drop_last().len() implies 0 <= #[trigger] s.drop_last()[k] by {
            assert(s.drop_last()[k] == s[k]);
        }
        lemma_total_bounds(s.drop_last());
        assert((s.len() - 1) * (i32::MAX as int) + (i32::MAX as int) == s.len() * (i32::MAX as int)) by (nonlinear_arith);
    }
}

/// The distance held for square `c`.
pub open spec fn held(dist: Seq<i32>, w: int, c: (int, int)) -> i32 {
    dist[c.0 * w + c.1]
}

/// Square `c` has passed its distance on: it holds none, or every square a
/// step away holds at most one more.
pub open spec fn relaxed(g: Seq<Seq<u32>>, dist: Seq<i32>, c: (int, int)) -> bool {
    held(dist, g[0].len() as int, c) == i32::MAX || forall|v: (int, int)| #[trigger] can_step(g, c, v) ==> held(
        dist,
        g[0].len() as int,
        v,
    ) <= held(dist, g[0].len() as int, c) + 1
}

/// Every square a step away from `p` is among its neighbours.
proof fn lemma_neighbor_complete(g: Seq<Seq<u32>>, p: (int, int), v: (int, int))
    requires
        can_step(g, p, v),
        forall|r: int| 0 <= r < g.len() ==> #[trigger] g[r].len() == g[0].len(),
    ensures
        exists|i: int| 0 <= i < neighbors_spec(g, p).len() && neighbors_spec(g, p)[i] == v,
{
    let up = if p.0 > 0 && can_step(g, p, (p.0 - 1, p.1)) { seq![(p.0 - 1, p.1)] } else { Seq::empty() };
    let left = if p.1 > 0 && can_step(g, p, (p.0, p.1 - 1)) { seq![(p.0, p.1 - 1)] } else { Seq::empty() };
    let down = if p.0 < g.len() - 1 && can_step(g, p, (p.0 + 1, p.1)) { seq![(p.0 + 1, p.1)] } else { Seq::empty() };
    let right = if p.1 < g[0].len() - 1 && can_step(g, p, (p.0, p.1 + 1)) { seq![(p.0, p.1 + 1)] } else { Seq::empty() };
    let all = up + left + down + right;
    assert(neighbors_spec(g, p) == all);
    if v == (p.0 - 1, p.1) {
        assert(all[0] == v);
    } else if v == (p.0, p.1 - 1) {
        assert(all[up.len() as int] == v);
    } else if v == (p.0 + 1, p.1) {
        assert(all[(up.len() + left.len()) as int] == v);
    } else {
        assert(all[(up.len() + left.len() + down.len()) as int] == v);
    }
}

/// Once every square has passed its distance on, every walk from the start
/// of fewer than `i32::MAX` steps ends at a square holding at most its
/// length.
proof fn lemma_walk_bound(g: Seq<Seq<u32>>, dist: Seq<i32>, s: (int, int), w: Seq<(int, int)>, k: int)
    requires
        is_walk(g, w),
        w[0] == s,
        held(dist, g[0].len() as int, s) == 0,
        forall|c: (int, int)| on_map(g, c.0, c.1) ==> #[trigger] relaxed(g, dist, c),
        0 <= k < w.len(),
        k < i32::MAX,
    ensures
        held(dist, g[0].len() as int, w[k]) <= k,
    decreases k,
{
    if k > 0 {
        lemma_walk_bound(g, dist, s, w, k - 1);
        assert(can_step(g, w[k - 1], w[k]));
        assert(relaxed(g, dist, w[k - 1]));
    }
}

/// The fewest steps from the start to the end, by Dijkstra's method;
/// `i32::MAX` when there is no way.
///
/// The distance found is that of a walk from the start to the end, and no
/// walk shorter than `i32::MAX` steps is shorter; it is `i32::MAX` exactly
/// when there is no such walk.
#[verifier::rlimit(60)]
pub fn dijkstra(m: &Heightmap) -> (r: i32)
    requires
        map_ok(m),
        grid(m).len() * grid(m)[0].len() <= usize::MAX,
    ensures
        known(grid(m), (m.start.0 as int, m.start.1 as int), (m.end.0 as int, m.end.1 as int), r),
        forall|n: int| #[trigger] reaches(grid(m), (m.start.0 as int, m.start.1 as int), (m.end.0 as int, m.end.1 as int), n)
            && n < i32::MAX ==> r <= n,
        m.start == m.end ==> r == 0,
{
    let ghost g = grid(m);
    let ghost s = (m.start.0 as int, m.start.1 as int);
    let h = m.elevation.len();
    let w = m.elevation[0].len();
    assert(w == g[0].len());
    let mut dist: Vec<i32> = Vec::new();
    let mut k: usize = 0;
    while k < h * w
        invariant
            h == g.len(),
            w == g[0].len(),
            h * w <= usize::MAX,
            k <= h * w,
            dist@.len() == k,
            forall|x: int| 0 <= x < k ==> #[trigger] dist@[x] == i32::MAX,
        decreases h * w - k,
    {
        dist.push(i32::MAX);
        k = k + 1;
    }
    proof {
        lemma_cell(w as int, s.0, s.1, h as int);
    }
    dist.set(m.start.0 * w + m.start.1, 0);
    proof {
        assert(reaches(g, s, s, 0)) by {
            let w0 = seq![s];
            assert(is_walk(g, w0));
        }
        assert forall|a: int, b: int| 0 <= a < h && 0 <= b < w implies #[trigger] known(g, s, (a, b), dist@[a * w + b]) by {
            lemma_cell(w as int, a, b, h as int);
            if (a, b) != s {
                assert(a * w + b != s.0 * w + s.1);
            }
        }
    }
    let mut q = dq_new();
    proof {
        assert(dq_items(q).dom() =~= Set::<(usize, usize)>::empty());
    }
    let mut r: usize = 0;
    while r < h
        invariant
            dq_items(q).dom().finite(),
            dq_items(q).dom().len() <= r * w,
            forall|x: int| 0 <= x < dist@.len() ==> 0 <= #[trigger] dist@[x],
            forall|a: int, b: int| 0 <= a < r && 0 <= b < w ==> #[trigger] dq_items(q).dom().contains((a as usize, b as usize)),
            forall|x: (usize, usize)| #[trigger] dq_items(q).dom().contains(x) ==> dq_items(q)[x] == dist@[x.0 * w + x.1],
            map_ok(m),
            g == grid(m),
            h == g.len(),
            w == g[0].len(),
            h * w <= usize::MAX,
            r <= h,
            dist@.len() == h * w,
            dist@[s.0 * w + s.1] == 0,
            forall|a: int, b: int| 0 <= a < h && 0 <= b < w ==> #[trigger] known(g, s, (a, b), dist@[a * w + b]),
            forall|x: (usize, usize)| #[trigger] dq_items(q).dom().contains(x) ==> on_map(g, x.0 as int, x.1 as int) && known(
                g,
                s,
                (x.0 as int, x.1 as int),
                dq_items(q)[x],
            ),
        decreases h - r,
    {
        let mut c: usize = 0;
        while c < w
            invariant
                dq_items(q).dom().finite(),
                dq_items(q).dom().len() <= r * w + c,
                forall|x: int| 0 <= x < dist@.len() ==> 0 <= #[trigger] dist@[x],
                forall|a: int, b: int| ((0 <= a < r && 0 <= b < w) || (a == r && 0 <= b < c)) ==> #[trigger] dq_items(q).dom().contains(
                    (a as usize, b as usize),
                ),
                forall|x: (usize, usize)| #[trigger] dq_items(q).dom().contains(x) ==> dq_items(q)[x] == dist@[x.0 * w + x.1],
                map_ok(m),
                g == grid(m),
                h == g.len(),
                w == g[0].len(),
                h * w <= usize::MAX,
                r < h,
                c <= w,
                dist@.len() == h * w,
                dist@[s.0 * w + s.1] == 0,
                forall|a: int, b: int| 0 <= a < h && 0 <= b < w ==> #[trigger] known(g, s, (a, b), dist@[a * w + b]),
                forall|x: (usize, usize)| #[trigger] dq_items(q).dom().contains(x) ==> on_map(g, x.0 as int, x.1 as int) && known(
                    g,
                    s,
                    (x.0 as int, x.1 as int),
                    dq_items(q)[x],
                ),
            decreases w - c,
        {
            proof {
                lemma_cell(w as int, r as int, c as int, h as int);
                assert(known(g, s, (r as int, c as int), dist@[r * w + c]));
            }
            dq_push(&mut q, (r, c), dist[r * w + c]);
            c = c + 1;
        }
        assert(r * w + w == (r + 1) * w) by (nonlinear_arith);
        r = r + 1;
    }
    while !dq_is_empty(&q)
        invariant
            dq_items(q).dom().finite(),
            forall|x: int| 0 <= x < dist@.len() ==> 0 <= #[trigger] dist@[x],
            forall|a: int, b: int| 0 <= a < h && 0 <= b < w ==> #[trigger] dq_items(q).dom().contains((a as usize, b as usize))
                || relaxed(g, dist@, (a, b)),
            forall|x: (usize, usize)| #[trigger] dq_items(q).dom().contains(x) ==> dq_items(q)[x] == dist@[x.0 * w + x.1],
            map_ok(m),
            g == grid(m),
            h == g.len(),
            w == g[0].len(),
            h * w <= usize::MAX,
            dist@.len() == h * w,
            dist@[s.0 * w + s.1] == 0,
            forall|a: int, b: int| 0 <= a < h && 0 <= b < w ==> #[trigger] known(g, s, (a, b), dist@[a * w + b]),
            forall|x: (usize, usize)| #[trigger] dq_items(q).dom().contains(x) ==> on_map(g, x.0 as int, x.1 as int) && known(
                g,
                s,
                (x.0 as int, x.1 as int),
                dq_items(q)[x],
            ),
        ensures
            dq_items(q).dom() == Set::<(usize, usize)>::empty(),
        decreases dq_items(q).dom().len() + 2 * total(dist@),
    {
        let ghost measure = dq_items(q).dom().len() + 2 * total(dist@);
        let ghost old_dom = dq_items(q).dom();
        proof {
            lemma_total_bounds(dist@);
        }
        let (u, d) = match dq_pop_min(&mut q) {
            Some(x) => x,
            None => {
                break;
            },
        };
        let ghost uc = (u.0 as int, u.1 as int);
        proof {
            lemma_cell(w as int, uc.0, uc.1, h as int);
            assert(dq_items(q).dom() =~= old_dom.remove(u));
            assert(dq_items(q).dom().len() + 2 * total(dist@) < measure);
        }
        let n = neighbors(m, u);
        if d != i32::MAX {
            let alt = d + 1;
            let mut i: usize = 0;
            while i < n.len()
                invariant
                    dq_items(q).dom().finite(),
                    forall|x: int| 0 <= x < dist@.len() ==> 0 <= #[trigger] dist@[x],
                    forall|a: int, b: int| 0 <= a < h && 0 <= b < w && (a, b) != uc ==> #[trigger] dq_items(q).dom().contains(
                        (a as usize, b as usize),
                    ) || relaxed(g, dist@, (a, b)),
                    forall|x: (usize, usize)| #[trigger] dq_items(q).dom().contains(x) ==> dq_items(q)[x] == dist@[x.0 * w + x.1],
                    dq_items(q).dom().len() + 2 * total(dist@) < measure,
                    dist@[uc.0 * w + uc.1] == d,
                    forall|k: int| 0 <= k < i ==> #[trigger] held(dist@, w as int, cells(n@)[k]) <= alt,
                    map_ok(m),
                    g == grid(m),
                    h == g.len(),
                    w == g[0].len(),
                    h * w <= usize::MAX,
                    dist@.len() == h * w,
                    dist@[s.0 * w + s.1] == 0,
                    on_map(g, uc.0, uc.1),
                    0 <= d < i32::MAX,
                    alt == d + 1,
                    reaches(g, s, uc, d as int),
                    cells(n@) == neighbors_spec(g, uc),
                    forall|a: int, b: int| 0 <= a < h && 0 <= b < w ==> #[trigger] known(g, s, (a, b), dist@[a * w + b]),
                    forall|x: (usize, usize)| #[trigger] dq_items(q).dom().contains(x) ==> on_map(g, x.0 as int, x.1 as int) && known(
                        g,
                        s,
                        (x.0 as int, x.1 as int),
                        dq_items(q)[x],
                    ),
                decreases n.len() - i,
            {
                let v = n[i];
                let ghost vc = (v.0 as int, v.1 as int);
                proof {
                    assert(cells(n@)[i as int] == vc);
                    lemma_neighbor(g, uc, i as int);
                    lemma_extend(g, s, uc, vc, d as int);
                    lemma_cell(w as int, vc.0, vc.1, h as int);
                    lemma_cell(w as int, uc.0, uc.1, h as int);
                    assert(vc != uc);
                }
                if alt < dist[v.0 * w + v.1] {
                    let ghost before = dist@;
                    let ghost qb = dq_items(q);
                    let ghost idx = vc.0 * w + vc.1;
                    proof {
                        if s == vc {
                            assert(before[idx] == 0);
                        }
                        assert(s != vc);
                        lemma_cell(w as int, s.0, s.1, h as int);
                        assert(s.0 * w + s.1 != idx);
                        assert(uc.0 * w + uc.1 != idx);
                    }
                    dist.set(v.0 * w + v.1, alt);
                    proof {
                        assert(dist@ == before.update(idx, alt));
                        lemma_total_update(before, idx, alt);
                        assert forall|a: int, b: int| 0 <= a < h && 0 <= b < w implies #[trigger] known(g, s, (a, b), dist@[a * w
                            + b]) by {
                            lemma_cell(w as int, a, b, h as int);
                            if a != vc.0 || b != vc.1 {
                                assert(a * w + b != idx);
                                assert(dist@[a * w + b] == before[a * w + b]);
                                assert(known(g, s, (a, b), before[a * w + b]));
                            } else {
                                assert(dist@[a * w + b] == alt);
                                assert(reaches(g, s, vc, alt as int));
                            }
                        }
                    }
                    dq_push_decrease(&mut q, v, alt);
                    proof {
                        assert(dq_items(q).dom().contains(v));
                        assert forall|x: (usize, usize)| #[trigger] dq_items(q).dom().contains(x) implies dq_items(q)[x] == dist@[x.0
                            * w + x.1] by {
                            if x != v {
                                assert(qb.dom().contains(x));
                                lemma_cell(w as int, x.0 as int, x.1 as int, h as int);
                                assert(x.0 * w + x.1 != idx);
                            }
                        }
                        assert forall|a: int, b: int| 0 <= a < h && 0 <= b < w && (a, b) != uc implies #[trigger] dq_items(q).dom().contains(
                            (a as usize, b as usize),
                        ) || relaxed(g, dist@, (a, b)) by {
                            if (a, b) != vc && !dq_items(q).dom().contains((a as usize, b as usize)) {
                                assert(!qb.dom().contains((a as usize, b as usize)));
                                assert(relaxed(g, before, (a, b)));
                                lemma_cell(w as int, a, b, h as int);
                                assert(a * w + b != idx);
                                assert forall|y: (int, int)| #[trigger] can_step(g, (a, b), y) implies held(dist@, w as int, y) <= held(
                                    before,
                                    w as int,
                                    y,
                                ) by {
                                    lemma_cell(w as int, y.0, y.1, h as int);
                                }
                            }
                        }
                        assert forall|k: int| 0 <= k < i + 1 implies #[trigger] held(dist@, w as int, cells(n@)[k]) <= alt by {
                            let y = cells(n@)[k];
                            lemma_neighbor(g, uc, k);
                            lemma_cell(w as int, y.0, y.1, h as int);
                            if k < i {
                                assert(held(before, w as int, y) <= alt);
                                if y != vc {
                                    assert(y.0 * w + y.1 != idx);
                                }
                            }
                        }
                    }
                } else {
                    proof {
                        assert(held(dist@, w as int, cells(n@)[i as int]) <= alt);
                    }
                }
                i = i + 1;
            }
            proof {
                assert(relaxed(g, dist@, uc)) by {
                    assert forall|y: (int, int)| #[trigger] can_step(g, uc, y) implies held(dist@, w as int, y) <= held(dist@, w as int, uc)
                        + 1 by {
                        lemma_neighbor_complete(g, uc, y);
                        let k = choose|k: int| 0 <= k < neighbors_spec(g, uc).len() && neighbors_spec(g, uc)[k] == y;
                        assert(held(dist@, w as int, cells(n@)[k]) <= alt);
                    }
                }
            }
        } else {
            proof {
                assert(relaxed(g, dist@, uc));
            }
        }
        proof {
            lemma_total_bounds(dist@);
        }
    }
    proof {
        if !(dq_items(q).dom() =~= Set::<(usize, usize)>::empty()) {
            assert(false);
        }
        lemma_cell(w as int, m.end.0 as int, m.end.1 as int, h as int);
        assert(known(g, s, (m.end.0 as int, m.end.1 as int), dist@[m.end.0 * w + m.end.1]));
        assert forall|c: (int, int)| on_map(g, c.0, c.1) implies #[trigger] relaxed(g, dist@, c) by {
            assert(!dq_items(q).dom().contains((c.0 as usize, c.1 as usize)));
        }
        let e = (m.end.0 as int, m.end.1 as int);
        assert forall|n: int| #[trigger] reaches(g, s, e, n) && n < i32::MAX implies dist@[m.end.0 * w + m.end.1] <= n by {
            let wk = choose|wk: Seq<(int, int)>| is_walk(g, wk) && wk[0] == s && wk.last() == e && wk.len() == n + 1;
            lemma_walk_bound(g, dist@, s, wk, n);
        }
        if m.start == m.end {
            assert(dist@[s.0 * w + s.1] == 0);
        }
    }
    dist[m.end.0 * w + m.end.1]
}

proof fn lemma_neighbor(g: Seq<Seq<u32>>, p: (int, int), i: int)
    requires
        0 <= i < neighbors_spec(g, p).len(),
    ensures
        can_step(g, p, neighbors_spec(g, p)[i]),
{
    let up = if p.0 > 0 && can_step(g, p, (p.0 - 1, p.1)) { seq![(p.0 - 1, p.1)] } else { Seq::empty() };
    let left = if p.1 > 0 && can_step(g, p, (p.0, p.1 - 1)) { seq![(p.0, p.1 - 1)] } else { Seq::empty() };
    let down = if p.0 < g.len() - 1 && can_step(g, p, (p.0 + 1, p.1)) { seq![(p.0 + 1, p.1)] } else { Seq::empty() };
    let right = if p.1 < g[0].len() - 1 && can_step(g, p, (p.0, p.1 + 1)) { seq![(p.0, p.1 + 1)] } else { Seq::empty() };
    let all = up + left + down + right;
    assert(neighbors_spec(g, p) == all);
    assert forall|k: int| 0 <= k < all.len() implies can_step(g, p, #[trigger] all[k]) by {
        let a = up;
        let b = up + left;
        let c = up + left + down;
        if k < a.len() {
            assert(all[k] == up[k]);
        } else if k < b.len() {
            assert(all[k] == left[k - a.len()]);
        } else if k < c.len() {
            assert(all[k] == down[k - b.len()]);
        } else {
            assert(all[k] == right[k - c.len()]);
        }
    }
}


/// The elevation a square's letter stands for: `S` is `a`, `E` is `z`.
pub open spec fn elev(c: char) -> int {
    if c == 'S' {
        0
    } else if c == 'E' {
        25
    } else {
        (c as u32) - 97
    }
}

/// The last column of `row` that holds `ch`.
pub open spec fn last_col(row: Seq<char>, ch: char) -> Option<int>
    decreases row.len(),
{
    if row.len() == 0 {
        None
    } else if row.last() == ch {
        Some(row.len() - 1)
    } else {
        last_col(row.drop_last(), ch)
    }
}

/// The last square (row by row) that holds `ch`.
pub open spec fn last_pos(rows: Seq<Seq<char>>, ch: char) -> Option<(int, int)>
    decreases rows.len(),
{
    if rows.len() == 0 {
        None
    } else {
        match last_col(rows.last(), ch) {
            Some(c) => Some((rows.len() - 1, c)),
            None => last_pos(rows.drop_last(), ch),
        }
    }
}

/// What went wrong reading the map.
pub enum Error {
    /// A row's length differs from the first row's.
    RowLength { got: usize, expected: usize },
    /// There is no row.
    Empty,
}

/// Every square is `S`, `E` or a character from `a` on.
pub open spec fn letters_ok(rows: Seq<Seq<char>>) -> bool {
    forall|r: int, c: int| 0 <= r < rows.len() && 0 <= c < rows[r].len() ==> #[trigger] rows[r][c] == 'S' || rows[r][c] == 'E'
        || 97 <= (rows[r][c] as u32)
}

/// The first row after the first whose length differs.
pub open spec fn bad_row(rows: Seq<Seq<char>>) -> Option<int> {
    if exists|r: int| 0 < r < rows.len() && #[trigger] rows[r].len() != rows[0].len() {
        Some(choose|r: int| 0 < r < rows.len() && #[trigger] rows[r].len() != rows[0].len() && forall|k: int| 0 < k < r ==> #[trigger] rows[k].len() == rows[0].len())
    } else {
        None
    }
}

proof fn lemma_last_col(row: Seq<char>, ch: char)
    ensures
        last_col(row, ch) matches Some(c) ==> 0 <= c < row.len() && row[c] == ch,
    decreases row.len(),
{
    if row.len() > 0 && row.last() != ch {
        lemma_last_col(row.drop_last(), ch);
    }
}

proof fn lemma_last_pos(rows: Seq<Seq<char>>, ch: char)
    ensures
        last_pos(rows, ch) matches Some(p) ==> 0 <= p.0 < rows.len() && 0 <= p.1 < rows[p.0].len(),
    decreases rows.len(),
{
    if rows.len() > 0 {
        lemma_last_col(rows.last(), ch);
        if last_col(rows.last(), ch) is None {
            lemma_last_pos(rows.drop_last(), ch);
        }
    }
}

/// Reads the map, one row a line (each trimmed; blank lines skipped).
pub fn read_input(lines: &Vec<String>) -> (r: Result<Heightmap, Error>)
    requires
        letters_ok(nonblank(views_of(lines@))),
    ensures
        ({
            let rows = nonblank(views_of(lines@));
            if rows.len() == 0 {
                r matches Err(Error::Empty)
            } else {
                match bad_row(rows) {
                    Some(k) => r matches Err(Error::RowLength { got, expected }) && got == rows[k].len() && expected
                        == rows[0].len(),
                    None => r matches Ok(m) && map_ok(&m) && grid(&m) == heights(rows) && grid(&m).len() == rows.len() && (forall|i: int, j: int|
                        0 <= i < rows.len() && 0 <= j < rows[i].len() ==> #[trigger] grid(&m)[i][j] == elev(rows[i][j]))
                        && (m.start.0 as int, m.start.1 as int) == (match last_pos(rows, 'S') {
                        Some(p) => p,
                        None => (0, 0),
                    }) && (m.end.0 as int, m.end.1 as int) == (match last_pos(rows, 'E') {
                        Some(p) => p,
                        None => (0, 0),
                    }),
                }
            }
        }),
{
    let nb = nonblank_lines(lines);
    let ghost rows = views_of(nb@);
    let mut elevation: Vec<Vec<u32>> = Vec::new();
    let mut start: (usize, usize) = (0, 0);
    let mut end: (usize, usize) = (0, 0);
    let mut width: usize = 0;
    let mut i: usize = 0;
    while i < nb.len()
        invariant
            rows == views_of(nb@),
            rows == nonblank(views_of(lines@)),
            letters_ok(rows),
            i <= nb.len(),
            elevation@.len() == i,
            i > 0 ==> width == rows[0].len(),
            forall|k: int| 0 < k < i ==> #[trigger] rows[k].len() == rows[0].len(),
            forall|a: int| 0 <= a < i ==> #[trigger] elevation@[a]@.len() == rows[a].len(),
            forall|a: int, b: int| 0 <= a < i && 0 <= b < rows[a].len() ==> #[trigger] elevation@[a]@[b] == elev(rows[a][b]),
            (start.0 as int, start.1 as int) == (match last_pos(rows.take(i as int), 'S') {
                Some(p) => p,
                None => (0, 0),
            }),
            (end.0 as int, end.1 as int) == (match last_pos(rows.take(i as int), 'E') {
                Some(p) => p,
                None => (0, 0),
            }),
        decreases nb.len() - i,
    {
        let cs = chars_of(nb[i].as_str());
        let ghost row = rows[i as int];
        assert(cs@ == row);
        let mut v: Vec<u32> = Vec::new();
        let mut rs: Option<usize> = None;
        let mut re: Option<usize> = None;
        let mut c: usize = 0;
        while c < cs.len()
            invariant
                cs@ == row,
                row == rows[i as int],
                letters_ok(rows),
                i < rows.len(),
                c <= cs.len(),
                v@.len() == c,
                forall|b: int| 0 <= b < c ==> #[trigger] v@[b] == elev(row[b]),
                rs == (match last_col(row.take(c as int), 'S') {
                    Some(x) => Some(x as usize),
                    None => None::<usize>,
                }),
                re == (match last_col(row.take(c as int), 'E') {
                    Some(x) => Some(x as usize),
                    None => None::<usize>,
                }),
            decreases cs.len() - c,
        {
            let ch = cs[c];
            assert(row.take(c + 1).drop_last() =~= row.take(c as int));
            assert(row.take(c + 1).last() == ch);
            if ch == 'S' {
                rs = Some(c);
            }
            if ch == 'E' {
                re = Some(c);
            }
            assert(rows[i as int][c as int] == ch);
            let n: u32 = if ch == 'S' {
                0
            } else if ch == 'E' {
                25
            } else {
                assert(ch == 'S' || ch == 'E' || 97 <= (ch as u32));
                (ch as u32) - 97
            };
            assert(n == elev(ch));
            v.push(n);
            c = c + 1;
        }
        assert(row.take(c as int) =~= row);
        proof {
            lemma_last_col(row, 'S');
            lemma_last_col(row, 'E');
        }
        if i > 0 {
            if v.len() != width {
                proof {
                    let k = i as int;
                    assert(0 < k < rows.len() && rows[k].len() != rows[0].len());
                    let b = bad_row(rows)->0;
                    assert(0 < b < rows.len() && rows[b].len() != rows[0].len() && forall|j: int| 0 < j < b ==> #[trigger] rows[j].len() == rows[0].len());
                    if b < k {
                        assert(rows[b].len() == rows[0].len());
                    }
                    if b > k {
                        assert(rows[k].len() == rows[0].len());
                    }
                }
                return Err(Error::RowLength { got: v.len(), expected: width });
            }
        } else {
            width = v.len();
        }
        proof {
            let t = rows.take(i + 1);
            assert(t.drop_last() =~= rows.take(i as int));
            assert(t.last() == row);
        }
        match rs {
            Some(x) => {
                start = (i, x);
            },
            None => {},
        }
        match re {
            Some(x) => {
                end = (i, x);
            },
            None => {},
        }
        elevation.push(v);
        i = i + 1;
    }
    if nb.len() == 0 {
        return Err(Error::Empty);
    }
    let m = Heightmap { start, end, elevation };
    proof {
        assert(rows.take(i as int) =~= rows);
        assert(bad_row(rows) is None);
        lemma_last_pos(rows, 'S');
        lemma_last_pos(rows, 'E');
        let g = grid(&m);
        assert forall|r: int| 0 <= r < g.len() implies #[trigger] g[r].len() == g[0].len() by {
            assert(g[r] == elevation@[r]@);
        }
        assert forall|r: int, c: int| 0 <= r < g.len() && 0 <= c < g[0].len() implies #[trigger] g[r][c] <= 0x10FFFF by {
            assert(g[r] == elevation@[r]@);
            assert(rows[r].len() == rows[0].len());
            let ch = rows[r][c];
            assert(ch == 'S' || ch == 'E' || 97 <= (ch as u32));
            assert((ch as u32) <= 0x10FFFF) by {
                vstd::utf8::char_is_scalar(ch);
            }
            assert(g[r][c] == elev(ch));
        }
        lemma_nonblank_nonempty(views_of(lines@));
        assert(rows[0].len() >= 1);
        assert forall|a: int, b: int| 0 <= a < rows.len() && 0 <= b < rows[a].len() implies #[trigger] grid(&m)[a][b] == elev(rows[a][b]) by {
            assert(g[a] == elevation@[a]@);
        }
        assert forall|a: int| 0 <= a < rows.len() implies #[trigger] g[a] =~= heights(rows)[a] by {
            assert(g[a] == elevation@[a]@);
            assert(rows[a].len() == rows[0].len());
        }
        assert(g =~= heights(rows));
    }
    Ok(m)
}

/// The elevation of each square, row by row.
pub open spec fn heights(rows: Seq<Seq<char>>) -> Seq<Seq<u32>> {
    rows.map_values(|row: Seq<char>| row.map_values(|c: char| elev(c) as u32))
}

/// The square of the last `ch` on the map, or the top left corner.
pub open spec fn marked(rows: Seq<Seq<char>>, ch: char) -> (int, int) {
    match last_pos(rows, ch) {
        Some(p) => p,
        None => (0, 0),
    }
}

/// Reads the map and finds the fewest steps from the start to the end
/// (`i32::MAX` when there is no way). `Ok(None)` when the map has more
/// squares than a `usize` counts.
pub fn process(lines: &Vec<String>) -> (r: Result<Option<i32>, Error>)
    requires
        letters_ok(nonblank(views_of(lines@))),
    ensures
        ({
            let rows = nonblank(views_of(lines@));
            if rows.len() == 0 {
                r matches Err(Error::Empty)
            } else {
                match bad_row(rows) {
                    Some(k) => r matches Err(Error::RowLength { got, expected }) && got == rows[k].len() && expected
                        == rows[0].len(),
                    None => {
                        &&& r is Ok
                        &&& (r matches Ok(None) <==> rows.len() * rows[0].len() > usize::MAX)
                        &&& r matches Ok(Some(d)) ==> known(heights(rows), marked(rows, 'S'), marked(rows, 'E'), d)
                        &&& r matches Ok(Some(d)) ==> forall|n: int| #[trigger] reaches(heights(rows), marked(rows, 'S'), marked(rows, 'E'), n)
                            && n < i32::MAX ==> d <= n
                        &&& r matches Ok(Some(d)) ==> (marked(rows, 'S') == marked(rows, 'E') ==> d == 0)
                    },
                }
            }
        }),
{
    let m = match read_input(lines) {
        Ok(m) => m,
        Err(e) => {
            return Err(e);
        },
    };
    let h = m.elevation.len();
    let w = m.elevation[0].len();
    proof {
        let rows = nonblank(views_of(lines@));
        assert(heights(rows)[0].len() == rows[0].len());
        assert(grid(&m)[0].len() == w);
    }
    if h.checked_mul(w).is_none() {
        return Ok(None);
    }
    let r = dijkstra(&m);
    Ok(Some(r))
}
} // verus!
