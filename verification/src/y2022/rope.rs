//! Rope bridge: a rope of knots follows its head around a grid; count the
//! positions its tail visits.
use vstd::prelude::*;
use std::collections::HashSet;
use crate::text::{chars_of, nonblank, nonblank_lines, parse_i32, string_push, views_of};

verus! {

/// Errors of this puzzle.
pub enum Error {
    /// A line is not a direction, a space and an amount; the text is the line.
    InvalidCommand(String),
    /// A direction other than `R`, `L`, `U` and `D` with a positive amount.
    InvalidDirection(char),
}

/// A knot position.
pub type Pos = (int, int);

/// The position of a knot.
pub open spec fn pos(p: (i32, i32)) -> Pos {
    (p.0 as int, p.1 as int)
}

/// `v` moved toward `target` by one, unless it is already within one of it.
pub open spec fn clamp_toward(v: int, target: int) -> int {
    if v < target - 1 { target - 1 } else if v > target + 1 { target + 1 } else { v }
}

/// The sign of `d`.
pub open spec fn sign(d: int) -> int {
    if d > 0 { 1 } else if d < 0 { -1 } else { 0 }
}

/// The absolute value of `d`.
pub open spec fn abs(d: int) -> int {
    if d < 0 { -d } else { d }
}

/// Where a knot at `t` goes when the knot before it is at `h`: in the same
/// column or row it closes up to within one step; off both, when it is two
/// steps away along some axis (and at most two along each), it steps
/// diagonally toward `h`; otherwise it stays.
pub open spec fn follow_spec(h: Pos, t: Pos) -> Pos {
    let dx = h.0 - t.0;
    let dy = h.1 - t.1;
    if dx == 0 {
        (t.0, clamp_toward(t.1, h.1))
    } else if dy == 0 {
        (clamp_toward(t.0, h.0), t.1)
    } else if abs(dx) <= 2 && abs(dy) <= 2 && (abs(dx) == 2 || abs(dy) == 2) {
        (t.0 + sign(dx), t.1 + sign(dy))
    } else {
        t
    }
}

/// Each coordinate of `follow_spec(h, t)` lies between those of `h` and `t`.
proof fn lemma_follow_between(h: Pos, t: Pos)
    ensures
        h.0 <= t.0 ==> h.0 <= follow_spec(h, t).0 <= t.0,
        t.0 <= h.0 ==> t.0 <= follow_spec(h, t).0 <= h.0,
        h.1 <= t.1 ==> h.1 <= follow_spec(h, t).1 <= t.1,
        t.1 <= h.1 ==> t.1 <= follow_spec(h, t).1 <= h.1,
{
}

/// Moves knot `t` after knot `h`.
pub fn follow(h: (i32, i32), t: (i32, i32)) -> (r: (i32, i32))
    ensures
        pos(r) == follow_spec(pos(h), pos(t)),
{
    let hx: i64 = h.0 as i64;
    let hy: i64 = h.1 as i64;
    let mut tx: i64 = t.0 as i64;
    let mut ty: i64 = t.1 as i64;
    if hx == tx {
        if ty < hy - 1 {
            ty = hy - 1;
        }
        if ty > hy + 1 {
            ty = hy + 1;
        }
    } else if hy == ty {
        if tx < hx - 1 {
            tx = hx - 1;
        }
        if tx > hx + 1 {
            tx = hx + 1;
        }
    } else {
        if tx == hx - 1 && ty == hy - 2 {
            tx = hx;
            ty = hy - 1;
        } else if tx == hx - 2 && ty == hy - 1 {
            tx = hx - 1;
            ty = hy;
        } else if tx == hx + 1 && ty == hy - 2 {
            tx = hx;
            ty = hy - 1;
        } else if tx == hx + 2 && ty == hy - 1 {
            tx = hx + 1;
            ty = hy;
        } else if tx == hx - 2 && ty == hy + 1 {
            tx = hx - 1;
            ty = hy;
        } else if tx == hx - 1 && ty == hy + 2 {
            tx = hx;
            ty = hy + 1;
        } else if tx == hx + 2 && ty == hy + 1 {
            tx = hx + 1;
            ty = hy;
        } else if tx == hx + 1 && ty == hy + 2 {
            tx = hx;
            ty = hy + 1;
        } else if tx == hx - 2 && ty == hy - 2 {
            tx = hx - 1;
            ty = hy - 1;
        } else if tx == hx + 2 && ty == hy - 2 {
            tx = hx + 1;
            ty = hy - 1;
        } else if tx == hx - 2 && ty == hy + 2 {
            tx = hx - 1;
            ty = hy + 1;
        } else if tx == hx + 2 && ty == hy + 2 {
            tx = hx + 1;
            ty = hy + 1;
        }
    }
    proof {
        lemma_follow_between(pos(h), pos(t));
    }
    (tx as i32, ty as i32)
}

/// A direction letter: `R`, `L`, `U` or `D`.
pub open spec fn is_dir(c: char) -> bool {
    c == 'R' || c == 'L' || c == 'U' || c == 'D'
}

/// The head moved one step in direction `c`.
pub open spec fn move_head(p: Pos, c: char) -> Pos {
    if c == 'R' {
        (p.0 + 1, p.1)
    } else if c == 'L' {
        (p.0 - 1, p.1)
    } else if c == 'D' {
        (p.0, p.1 - 1)
    } else {
        (p.0, p.1 + 1)
    }
}

/// The rope after knots 1 to `i - 1` have each followed the knot before them.
pub open spec fn settle(r: Seq<Pos>, i: nat) -> Seq<Pos>
    decreases i,
{
    if i <= 1 {
        r
    } else {
        let s = settle(r, (i - 1) as nat);
        s.update(i - 1, follow_spec(s[i - 2], s[i - 1]))
    }
}

/// The rope after its head moves one step in direction `c`.
pub open spec fn step(r: Seq<Pos>, c: char) -> Seq<Pos> {
    settle(r.update(0, move_head(r[0], c)), r.len())
}

/// The visited positions, in order of first visit, after visiting `p`.
pub open spec fn note(v: Seq<Pos>, p: Pos) -> Seq<Pos> {
    if v.contains(p) { v } else { v.push(p) }
}

/// The rope and visited tail positions after `k` steps in direction `c`.
pub open spec fn repeat(st: (Seq<Pos>, Seq<Pos>), c: char, k: nat) -> (Seq<Pos>, Seq<Pos>)
    decreases k,
{
    if k == 0 {
        st
    } else {
        let s = repeat(st, c, (k - 1) as nat);
        let r = step(s.0, c);
        (r, note(s.1, r.last()))
    }
}

/// The state after the first `n` commands, or the direction of the first
/// command with a positive amount whose direction is not one.
pub open spec fn run(st: (Seq<Pos>, Seq<Pos>), cmds: Seq<(char, i32)>, n: nat) -> Result<(Seq<Pos>, Seq<Pos>), char>
    decreases n,
{
    if n == 0 {
        Ok(st)
    } else {
        match run(st, cmds, (n - 1) as nat) {
            Err(c) => Err(c),
            Ok(s) => {
                let (c, a) = cmds[n - 1];
                if a <= 0 {
                    Ok(s)
                } else if !is_dir(c) {
                    Err(c)
                } else {
                    Ok(repeat(s, c, a as nat))
                }
            },
        }
    }
}

/// The starting state: every knot at the origin, which counts as visited.
pub open spec fn start(len: nat) -> (Seq<Pos>, Seq<Pos>) {
    (Seq::new(len, |i: int| (0int, 0int)), seq![(0int, 0int)])
}

/// The step that direction `c` makes along each axis (`U` for any other
/// letter, as `move_head` has it).
pub open spec fn dir(c: char) -> Pos {
    if c == 'R' {
        (1, 0)
    } else if c == 'L' {
        (-1, 0)
    } else if c == 'D' {
        (0, -1)
    } else {
        (0, 1)
    }
}

/// Where the head is after the first `n` commands; a command that moves
/// nothing leaves it where it was.
pub open spec fn head_at(cmds: Seq<(char, i32)>, n: nat) -> Pos
    decreases n,
{
    if n == 0 {
        (0, 0)
    } else {
        let p = head_at(cmds, (n - 1) as nat);
        let (c, a) = cmds[n - 1];
        if a > 0 && is_dir(c) {
            (p.0 + a * dir(c).0, p.1 + a * dir(c).1)
        } else {
            p
        }
    }
}

/// No command before the `m`-th has a positive amount and a direction that
/// is not one.
pub open spec fn valid_upto(cmds: Seq<(char, i32)>, m: int) -> bool {
    forall|j: int| 0 <= j < m ==> (#[trigger] cmds[j]).1 <= 0 || is_dir(cmds[j].0)
}

/// `p` has coordinates that an `i32` holds.
pub open spec fn fits(p: Pos) -> bool {
    i32::MIN <= p.0 <= i32::MAX && i32::MIN <= p.1 <= i32::MAX
}

/// Every position that the head reaches while the first `n` commands run,
/// up to the first that fails, has coordinates that an `i32` holds.
pub open spec fn head_fits(cmds: Seq<(char, i32)>, n: nat) -> bool {
    forall|m: nat| m < n && valid_upto(cmds, m as int) ==> fits(#[trigger] head_at(cmds, m + 1))
}

proof fn lemma_head_fits(cmds: Seq<(char, i32)>, n: nat, m: nat)
    requires
        head_fits(cmds, n),
        m <= n,
        valid_upto(cmds, m as int),
    ensures
        fits(head_at(cmds, m)),
    decreases m,
{
    if m > 0 {
        assert(valid_upto(cmds, m - 1));
        assert(fits(head_at(cmds, ((m - 1) as nat + 1) as nat)));
    }
}

proof fn lemma_run_ok_valid(st: (Seq<Pos>, Seq<Pos>), cmds: Seq<(char, i32)>, n: nat)
    requires
        run(st, cmds, n) is Ok,
    ensures
        valid_upto(cmds, n as int),
    decreases n,
{
    if n > 0 {
        lemma_run_ok_valid(st, cmds, (n - 1) as nat);
    }
}

/// Settling the knots behind the head leaves the head where it is.
proof fn lemma_settle_head(r: Seq<Pos>, i: nat)
    requires
        i <= r.len(),
        r.len() >= 1,
    ensures
        settle(r, i)[0] == r[0],
        settle(r, i).len() == r.len(),
    decreases i,
{
    if i > 1 {
        lemma_settle_head(r, (i - 1) as nat);
    }
}

proof fn lemma_run_err_stays(st: (Seq<Pos>, Seq<Pos>), cmds: Seq<(char, i32)>, m: nat, n: nat, c: char)
    requires
        m <= n,
        run(st, cmds, m) == Err::<(Seq<Pos>, Seq<Pos>), char>(c),
    ensures
        run(st, cmds, n) == Err::<(Seq<Pos>, Seq<Pos>), char>(c),
    decreases n - m,
{
    if m < n {
        lemma_run_err_stays(st, cmds, m, (n - 1) as nat, c);
    }
}

/// The positions of a rope.
pub open spec fn knots(r: Seq<(i32, i32)>) -> Seq<Pos> {
    r.map_values(|p: (i32, i32)| pos(p))
}

/// The key of a position in the set of visited cells: the row in the
/// high 32 bits, the column offset from `i32::MIN` in the low.
pub open spec fn key_of_pos(p: Pos) -> i64 {
    (p.0 * 0x1_0000_0000 + (p.1 - i32::MIN)) as i64
}

proof fn lemma_key_of_pos(p: Pos, q: Pos)
    requires
        fits(p),
        fits(q),
    ensures
        i64::MIN <= p.0 * 0x1_0000_0000 + (p.1 - i32::MIN) <= i64::MAX,
        key_of_pos(p) == key_of_pos(q) ==> p == q,
{
    assert(i64::MIN <= p.0 * 0x1_0000_0000 + (p.1 - i32::MIN) <= i64::MAX) by (nonlinear_arith)
        requires
            i32::MIN <= p.0 <= i32::MAX,
            i32::MIN <= p.1 <= i32::MAX,
    ;
    assert(i64::MIN <= q.0 * 0x1_0000_0000 + (q.1 - i32::MIN) <= i64::MAX) by (nonlinear_arith)
        requires
            i32::MIN <= q.0 <= i32::MAX,
            i32::MIN <= q.1 <= i32::MAX,
    ;
    if p.0 < q.0 {
        assert(p.0 * 0x1_0000_0000 + (p.1 - i32::MIN) < q.0 * 0x1_0000_0000 + (q.1 - i32::MIN)) by (nonlinear_arith)
            requires
                p.0 < q.0,
                0 <= p.1 - i32::MIN < 0x1_0000_0000,
                0 <= q.1 - i32::MIN,
        ;
    } else if q.0 < p.0 {
        assert(q.0 * 0x1_0000_0000 + (q.1 - i32::MIN) < p.0 * 0x1_0000_0000 + (p.1 - i32::MIN)) by (nonlinear_arith)
            requires
                q.0 < p.0,
                0 <= q.1 - i32::MIN < 0x1_0000_0000,
                0 <= p.1 - i32::MIN,
        ;
    }
}

/// The key of a cell, computed.
fn cell_key(p: (i32, i32)) -> (r: i64)
    ensures
        r == key_of_pos(pos(p)),
{
    proof {
        lemma_key_of_pos(pos(p), pos(p));
    }
    (p.0 as i64) * 0x1_0000_0000 + ((p.1 as i64) - (i32::MIN as i64))
}

/// Runs the commands `(direction, amount)` on a rope of `len` knots that
/// starts with every knot at the origin, and counts the distinct positions
/// its last knot visits (the count as a `u32`, wrapping).
#[verifier::loop_isolation(false)]
pub fn simulate(commands: &Vec<(char, i32)>, len: usize) -> (r: Result<u32, Error>)
    requires
        len >= 1,
        head_fits(commands@, commands@.len()),
    ensures
        run(start(len as nat), commands@, commands@.len()) matches Ok(st) ==> r matches Ok(n) && n == st.1.len() as u32,
        run(start(len as nat), commands@, commands@.len()) matches Err(c) ==> r matches Err(Error::InvalidDirection(d))
            && d == c,
{
    let mut rope: Vec<(i32, i32)> = Vec::new();
    for i in 0..len
        invariant
            rope@.len() == i,
            forall|k: int| 0 <= k < i ==> rope@[k] == (0i32, 0i32),
    {
        rope.push((0, 0));
    }
    let mut visited: HashSet<i64> = HashSet::new();
    visited.insert(cell_key((0, 0)));
    let ghost mut vis: Seq<Pos> = seq![(0int, 0int)];
    proof {
        assert(knots(rope@) =~= start(len as nat).0);
        assert(vis =~= start(len as nat).1);
        assert(visited@ =~= Set::<i64>::empty().insert(key_of_pos((0, 0))));
        assert forall|kk: i64| visited@.contains(kk) <==> exists|q: int| 0 <= q < vis.len() && key_of_pos(#[trigger] vis[q])
            == kk by {
            if visited@.contains(kk) {
                assert(key_of_pos(vis[0]) == kk);
            }
        }
    }
    let n = commands.len();
    for ci in 0..n
        invariant
            n == commands@.len(),
            len >= 1,
            rope@.len() == len,
            head_fits(commands@, n as nat),
            run(start(len as nat), commands@, ci as nat) == Ok::<(Seq<Pos>, Seq<Pos>), char>((knots(rope@), vis)),
            visited@.finite(),
            visited@.len() == vis.len(),
            forall|kk: i64| visited@.contains(kk) <==> exists|q: int| 0 <= q < vis.len() && key_of_pos(#[trigger] vis[q]) == kk,
            forall|q: int| 0 <= q < vis.len() ==> fits(#[trigger] vis[q]),
            knots(rope@)[0] == head_at(commands@, ci as nat),
    {
        let (c, amount) = commands[ci];
        proof {
            assert(commands@[ci as int] == (c, amount));
            lemma_run_ok_valid(start(len as nat), commands@, ci as nat);
            lemma_head_fits(commands@, n as nat, ci as nat);
            if amount > 0 && is_dir(c) {
                assert(fits(head_at(commands@, (ci as nat + 1) as nat)));
            }
        }
        let ghost before = (knots(rope@), vis);
        let ghost h0 = head_at(commands@, ci as nat);
        let mut k: i32 = 0;
        while k < amount
            invariant
                0 <= k,
                amount > 0 ==> k <= amount,
                amount <= 0 ==> k == 0,
                len >= 1,
                rope@.len() == len,
                fits(h0),
                amount > 0 && is_dir(c) ==> fits((h0.0 + amount * dir(c).0, h0.1 + amount * dir(c).1)),
                k > 0 ==> is_dir(c),
                repeat(before, c, k as nat) == (knots(rope@), vis),
                visited@.finite(),
                visited@.len() == vis.len(),
                forall|kk: i64| visited@.contains(kk) <==> exists|q: int| 0 <= q < vis.len() && key_of_pos(#[trigger] vis[q]) == kk,
                forall|q: int| 0 <= q < vis.len() ==> fits(#[trigger] vis[q]),
                knots(rope@)[0] == (h0.0 + k * dir(c).0, h0.1 + k * dir(c).1),
            decreases amount - k,
        {
            let ghost prev_rope = knots(rope@);
            let head = rope[0];
            proof {
                assert(prev_rope[0] == pos(head));
                if is_dir(c) {
                    assert(amount > 0);
                    let d = dir(c);
                    assert(k * d.0 + h0.0 == head.0 && k * d.1 + h0.1 == head.1);
                    assert(d.0 == 0 ==> k * d.0 == 0) by (nonlinear_arith);
                    assert(d.1 == 0 ==> k * d.1 == 0) by (nonlinear_arith);
                    assert(d.0 == 1 ==> k * d.0 == k && amount * d.0 == amount) by (nonlinear_arith);
                    assert(d.1 == 1 ==> k * d.1 == k && amount * d.1 == amount) by (nonlinear_arith);
                    assert(d.0 == -1 ==> k * d.0 == -k && amount * d.0 == -amount) by (nonlinear_arith);
                    assert(d.1 == -1 ==> k * d.1 == -k && amount * d.1 == -amount) by (nonlinear_arith);
                    if c == 'R' {
                        assert(head.0 + 1 <= h0.0 + amount);
                    } else if c == 'L' {
                        assert(head.0 - 1 >= h0.0 - amount);
                    } else if c == 'D' {
                        assert(head.1 - 1 >= h0.1 - amount);
                    } else {
                        assert(head.1 + 1 <= h0.1 + amount);
                    }
                }
            }
            let moved = match c {
                'R' => (head.0 + 1, head.1),
                'L' => (head.0 - 1, head.1),
                'D' => (head.0, head.1 - 1),
                'U' => (head.0, head.1 + 1),
                _ => {
                    proof {
                        assert(run(start(len as nat), commands@, (ci + 1) as nat) == Err::<(Seq<Pos>, Seq<Pos>), char>(c));
                        lemma_run_err_stays(start(len as nat), commands@, (ci + 1) as nat, n as nat, c);
                    }
                    return Err(Error::InvalidDirection(c));
                },
            };
            rope.set(0, moved);
            let ghost r0 = knots(rope@);
            proof {
                assert(r0 =~= prev_rope.update(0, move_head(prev_rope[0], c)));
                lemma_settle_head(r0, len as nat);
            }
            let mut i: usize = 1;
            while i < len
                invariant
                    1 <= i <= len,
                    rope@.len() == len,
                    knots(rope@) == settle(r0, i as nat),
                    r0.len() == len,
                decreases len - i,
            {
                let ghost s = knots(rope@);
                proof {
                    lemma_settle_head(r0, i as nat);
                }
                let f = follow(rope[i - 1], rope[i]);
                rope.set(i, f);
                proof {
                    assert(knots(rope@) =~= s.update(i as int, follow_spec(s[i - 1], s[i as int])));
                }
                i = i + 1;
            }
            proof {
                lemma_settle_head(r0, len as nat);
            }
            let tail = rope[len - 1];
            let ghost vprev = vis;
            let newly = visited.insert(cell_key(tail));
            proof {
                assert(knots(rope@).last() == pos(tail));
                assert(fits(pos(tail)));
                if vprev.contains(pos(tail)) {
                    let q = choose|q: int| 0 <= q < vprev.len() && vprev[q] == pos(tail);
                    assert(key_of_pos(vprev[q]) == key_of_pos(pos(tail)));
                    assert(!newly);
                } else {
                    if !newly {
                        let q = choose|q: int| 0 <= q < vprev.len() && key_of_pos(#[trigger] vprev[q]) == key_of_pos(pos(tail));
                        lemma_key_of_pos(vprev[q], pos(tail));
                        assert(vprev.contains(pos(tail)));
                    }
                    vis = vprev.push(pos(tail));
                    assert forall|kk: i64| visited@.contains(kk) <==> exists|q: int| 0 <= q < vis.len() && key_of_pos(
                        #[trigger] vis[q],
                    ) == kk by {
                        if kk == key_of_pos(pos(tail)) {
                            assert(key_of_pos(vis[vprev.len() as int]) == kk);
                        } else if visited@.contains(kk) {
                            let q = choose|q: int| 0 <= q < vprev.len() && key_of_pos(#[trigger] vprev[q]) == kk;
                            assert(vis[q] == vprev[q]);
                        } else if exists|q: int| 0 <= q < vis.len() && key_of_pos(#[trigger] vis[q]) == kk {
                            let q = choose|q: int| 0 <= q < vis.len() && key_of_pos(#[trigger] vis[q]) == kk;
                            assert(q < vprev.len());
                            assert(vis[q] == vprev[q]);
                        }
                    }
                    assert forall|q: int| 0 <= q < vis.len() implies fits(#[trigger] vis[q]) by {
                        if q < vprev.len() {
                            assert(vis[q] == vprev[q]);
                        }
                    }
                }
            }
            k = k + 1;
        }
        proof {
            if amount > 0 {
                assert(k == amount);
                assert(is_dir(c));
                assert(run(start(len as nat), commands@, (ci + 1) as nat) == Ok::<(Seq<Pos>, Seq<Pos>), char>(
                    repeat(before, c, amount as nat)));
            } else {
                assert(k == 0);
                assert(run(start(len as nat), commands@, (ci + 1) as nat) == Ok::<(Seq<Pos>, Seq<Pos>), char>(before));
            }
        }
    }
    Ok(#[verifier::truncate] (visited.len() as u32))
}

/// Whether `split_at(2)` would cut through the first character of a line
/// whose second character is a space: a first character of three or more
/// UTF-8 bytes.
pub open spec fn splits_first(l: Seq<char>) -> bool {
    l.len() >= 2 && l[1] == ' ' && (l[0] as u32) >= 0x800
}

/// What a command line says: its first character and the number after
/// its second (which must be a space); or `None`. The amount is the text
/// from byte two on, so a first character of two bytes leaves the space in
/// it, which no number starts with.
pub open spec fn command_spec(l: Seq<char>) -> Option<(char, int)> {
    if l.len() < 2 || l[1] != ' ' || (l[0] as u32) >= 0x80 {
        None
    } else {
        match crate::text::parse_int(l.skip(2), true, i32::MIN as int, i32::MAX as int) {
            Some(a) => Some((l[0], a)),
            None => None,
        }
    }
}

/// Parses a command line: a direction, a space, an amount.
pub fn parse_command(line: &str) -> (r: Result<(char, i32), Error>)
    requires
        !splits_first(line@),
    ensures
        command_spec(line@) matches Some((c, a)) ==> r matches Ok((c2, a2)) && c2 == c && a2 == a,
        command_spec(line@) is None ==> (r matches Err(Error::InvalidCommand(t)) && t@ == line@),
{
    let cs = chars_of(line);
    let n = cs.len();
    if n < 2 || cs[1] != ' ' || (cs[0] as u32) >= 0x80 {
        return Err(Error::InvalidCommand(line.to_owned()));
    }
    let mut rest = String::new();
    for i in 2..n
        invariant
            n == cs@.len(),
            rest@ == cs@.subrange(2, i as int),
    {
        string_push(&mut rest, cs[i]);
    }
    proof {
        assert(rest@ =~= line@.skip(2));
    }
    match parse_i32(rest.as_str()) {
        Some(a) => Ok((cs[0], a)),
        None => Err(Error::InvalidCommand(line.to_owned())),
    }
}

/// The number of leading lines that are commands.
pub open spec fn parsed_count(ls: Seq<Seq<char>>) -> nat
    decreases ls.len(),
{
    if ls.len() == 0 {
        0
    } else if parsed_count(ls.drop_last()) == ls.len() - 1 && command_spec(ls.last()) is Some {
        ls.len()
    } else {
        parsed_count(ls.drop_last())
    }
}

/// The command that a command line says.
pub open spec fn command_of(l: Seq<char>) -> (char, i32) {
    match command_spec(l) {
        Some((c, a)) => (c, a as i32),
        None => (' ', 0i32),
    }
}

/// The commands that the leading command lines say.
pub open spec fn commands_of(ls: Seq<Seq<char>>) -> Seq<(char, i32)> {
    Seq::new(parsed_count(ls), |i: int| command_of(ls[i]))
}

proof fn lemma_parsed_count(ls: Seq<Seq<char>>)
    ensures
        parsed_count(ls) <= ls.len(),
        forall|i: int| 0 <= i < parsed_count(ls) ==> command_spec(#[trigger] ls[i]) is Some,
        parsed_count(ls) < ls.len() ==> command_spec(ls[parsed_count(ls) as int]) is None,
    decreases ls.len(),
{
    if ls.len() > 0 {
        lemma_parsed_count(ls.drop_last());
        assert forall|i: int| 0 <= i < parsed_count(ls) implies command_spec(#[trigger] ls[i]) is Some by {
            if i < ls.len() - 1 {
                assert(ls[i] == ls.drop_last()[i]);
            }
        }
        if parsed_count(ls) < ls.len() - 1 {
            assert(ls[parsed_count(ls) as int] == ls.drop_last()[parsed_count(ls) as int]);
        }
    }
}

/// Runs the command lines on a rope of `len` knots: every line is trimmed
/// and blank ones are skipped; the lines are parsed and run in order, and the
/// first failure (a line that is not a command, or a direction that is not
/// one) ends the run.
pub fn process_lines(lines: &Vec<String>, len: usize) -> (r: Result<u32, Error>)
    requires
        len >= 1,
        forall|i: int| 0 <= i <= parsed_count(nonblank(views_of(lines@))) && i < nonblank(views_of(lines@)).len()
            ==> !splits_first(#[trigger] nonblank(views_of(lines@))[i]),
        head_fits(commands_of(nonblank(views_of(lines@))), parsed_count(nonblank(views_of(lines@)))),
    ensures
        ({
            let ls = nonblank(views_of(lines@));
            let cmds = commands_of(ls);
            match run(start(len as nat), cmds, cmds.len()) {
                Err(c) => r == Err::<u32, Error>(Error::InvalidDirection(c)),
                Ok(st) => if cmds.len() < ls.len() {
                    r matches Err(Error::InvalidCommand(t)) && t@ == ls[cmds.len() as int]
                } else {
                    r == Ok::<u32, Error>(st.1.len() as u32)
                },
            }
        }),
{
    let ls = nonblank_lines(lines);
    let ghost v = nonblank(views_of(lines@));
    proof {
        lemma_parsed_count(v);
        assert(views_of(ls@) == v);
    }
    let mut commands: Vec<(char, i32)> = Vec::new();
    let mut bad: Option<String> = None;
    let n = ls.len();
    let mut i: usize = 0;
    while i < n && bad.is_none()
        invariant
            n == ls@.len(),
            views_of(ls@) == v,
            v.len() == n,
            i <= n,
            i <= parsed_count(v),
            parsed_count(v) <= n,
            commands@ =~= commands_of(v).subrange(0, i as int),
            bad matches Some(t) ==> i == parsed_count(v) && i < n && t@ == v[i as int],
            forall|j: int| 0 <= j <= parsed_count(v) && j < v.len() ==> !splits_first(#[trigger] v[j]),
        decreases n - i + if bad is None { 1int } else { 0int },
    {
        proof {
            assert(v[i as int] == ls@[i as int]@);
            lemma_parsed_count(v);
        }
        match parse_command(ls[i].as_str()) {
            Ok(c) => {
                proof {
                    if i == parsed_count(v) {
                        assert(command_spec(v[i as int]) is None);
                    }
                }
                commands.push(c);
                i = i + 1;
            },
            Err(Error::InvalidCommand(t)) => {
                proof {
                    if i < parsed_count(v) {
                        assert(command_spec(v[i as int]) is Some);
                    }
                }
                bad = Some(t);
            },
            Err(Error::InvalidDirection(_)) => {
                proof {
                    assert(false);
                }
            },
        }
    }
    proof {
        assert(commands@ =~= commands_of(v));
    }
    match simulate(&commands, len) {
        Err(e) => Err(e),
        Ok(count) => match bad {
            Some(t) => Err(Error::InvalidCommand(t)),
            None => Ok(count),
        },
    }
}

/// Each direction moves the head one step along one axis: `R` and `L`
/// undo each other along the first axis, `U` and `D` along the second.
pub proof fn lemma_head_moves(p: Pos)
    ensures
        move_head(move_head(p, 'R'), 'L') == p,
        move_head(move_head(p, 'U'), 'D') == p,
        move_head(p, 'R').1 == p.1 && move_head(p, 'R').0 == p.0 + 1,
        move_head(p, 'U').0 == p.0 && abs(move_head(p, 'U').1 - p.1) == 1,
        move_head(p, 'D').0 == p.0 && abs(move_head(p, 'D').1 - p.1) == 1,
{
}

/// The record of visited positions gains the new position, exactly once.
pub proof fn lemma_note(v: Seq<Pos>, p: Pos)
    ensures
        note(v, p).contains(p),
        forall|q: Pos| note(v, p).contains(q) <==> (v.contains(q) || q == p),
        v.no_duplicates() ==> note(v, p).no_duplicates(),
{
    if !v.contains(p) {
        let w = v.push(p);
        assert(w[v.len() as int] == p);
        assert forall|q: Pos| w.contains(q) <==> (v.contains(q) || q == p) by {
            if v.contains(q) {
                let i = choose|i: int| 0 <= i < v.len() && v[i] == q;
                assert(w[i] == q);
            }
            if w.contains(q) && q != p {
                let i = choose|i: int| 0 <= i < w.len() && w[i] == q;
                assert(v[i] == q);
            }
        }
        if v.no_duplicates() {
            assert forall|i: int, j: int| 0 <= i < w.len() && 0 <= j < w.len() && i != j implies w[i] != w[j] by {
                if i < v.len() && j < v.len() {
                } else if i == v.len() {
                    assert(!v.contains(w[j]) || w[j] != p);
                    if w[j] == p {
                        assert(v[j] == p);
                    }
                } else {
                    if w[i] == p {
                        assert(v[i] == p);
                    }
                }
            }
        }
    }
}

/// `p` mirrored across the vertical axis.
pub open spec fn mirror(p: Pos) -> Pos {
    (-p.0, p.1)
}

/// `p` with its two coordinates exchanged (mirrored across the diagonal).
pub open spec fn transpose(p: Pos) -> Pos {
    (p.1, p.0)
}

/// `p` moved by `d`.
pub open spec fn shift(p: Pos, d: Pos) -> Pos {
    (p.0 + d.0, p.1 + d.1)
}

/// How a knot follows does not depend on where on the grid the two knots
/// are, nor on the grid's orientation: moving both knots, mirroring them,
/// or exchanging the axes moves, mirrors or exchanges the result the same
/// way. (Mirroring and exchanging the axes generate every rotation and
/// reflection of the grid.)
pub proof fn lemma_follow_symmetric(h: Pos, t: Pos, d: Pos)
    ensures
        follow_spec(shift(h, d), shift(t, d)) == shift(follow_spec(h, t), d),
        follow_spec(mirror(h), mirror(t)) == mirror(follow_spec(h, t)),
        follow_spec(transpose(h), transpose(t)) == transpose(follow_spec(h, t)),
{
}

/// A knot never moves away from the knot before it and moves at most one
/// step along each axis; a knot that does not touch the knot before it
/// moves one step along every axis on which the two differ, so that it
/// ends up in that knot's row or column when it was one off.
pub proof fn lemma_follow_steps(h: Pos, t: Pos)
    requires
        abs(h.0 - t.0) <= 2,
        abs(h.1 - t.1) <= 2,
    ensures
        abs(follow_spec(h, t).0 - t.0) <= 1,
        abs(follow_spec(h, t).1 - t.1) <= 1,
        abs(h.0 - follow_spec(h, t).0) <= abs(h.0 - t.0),
        abs(h.1 - follow_spec(h, t).1) <= abs(h.1 - t.1),
        (abs(h.0 - t.0) == 2 || abs(h.1 - t.1) == 2) ==> (h.0 != t.0 ==> follow_spec(h, t).0 != t.0) && (h.1
            != t.1 ==> follow_spec(h, t).1 != t.1),
        abs(h.0 - t.0) <= 1 && abs(h.1 - t.1) <= 1 ==> follow_spec(h, t) == t,
{
}

/// A knot that was at most two steps from the knot before it along each
/// axis ends up touching it (at most one step along each axis).
pub proof fn follow_keeps_up(h: Pos, t: Pos)
    requires
        abs(h.0 - t.0) <= 2,
        abs(h.1 - t.1) <= 2,
    ensures
        abs(h.0 - follow_spec(h, t).0) <= 1,
        abs(h.1 - follow_spec(h, t).1) <= 1,
{
}

/// A knot that already touches the knot before it does not move.
pub proof fn follow_touching_stays(h: Pos, t: Pos)
    requires
        abs(h.0 - t.0) <= 1,
        abs(h.1 - t.1) <= 1,
    ensures
        follow_spec(h, t) == t,
{
}

} // verus!
