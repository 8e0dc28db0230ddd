//! Monkey map: walk a board of open tiles and walls, wrapping around its
//! edges, following a path of moves and turns; the password encodes where
//! the walk ends.
use vstd::prelude::*;
use crate::text::{chars_of, parse_i64, parse_int, owned, trim_end, trimmed_end, views_of};

verus! {

/// Errors of this puzzle.
pub enum Error {
    /// A move count that is not a number; the text is the count.
    InvalidNumber(String),
    /// A character of the board other than space, `.` and `#`.
    InvalidChar(char),
    /// A second path line; the text is that line.
    DuplicateInstructions(String),
    /// No path line.
    MissingInstructions,
}

/// Which way the walker faces.
#[derive(Clone, Copy, PartialEq, Eq, Structural)]
pub enum Orientation {
    Up,
    Down,
    Left,
    Right,
}

/// The orientation after a clockwise quarter turn.
pub open spec fn right_of(o: Orientation) -> Orientation {
    match o {
        Orientation::Up => Orientation::Right,
        Orientation::Down => Orientation::Left,
        Orientation::Left => Orientation::Up,
        Orientation::Right => Orientation::Down,
    }
}

/// The orientation after a counterclockwise quarter turn.
pub open spec fn left_of(o: Orientation) -> Orientation {
    match o {
        Orientation::Up => Orientation::Left,
        Orientation::Down => Orientation::Right,
        Orientation::Left => Orientation::Down,
        Orientation::Right => Orientation::Up,
    }
}

/// The value of a facing in the password.
pub open spec fn facing_value(o: Orientation) -> int {
    match o {
        Orientation::Up => 3,
        Orientation::Down => 1,
        Orientation::Left => 2,
        Orientation::Right => 0,
    }
}

impl Orientation {
    /// A clockwise quarter turn.
    pub fn turn_right(&self) -> (r: Orientation)
        ensures
            r == right_of(*self),
    {
        match self {
            Orientation::Up => Orientation::Right,
            Orientation::Down => Orientation::Left,
            Orientation::Left => Orientation::Up,
            Orientation::Right => Orientation::Down,
        }
    }

    /// A counterclockwise quarter turn.
    pub fn turn_left(&self) -> (r: Orientation)
        ensures
            r == left_of(*self),
    {
        match self {
            Orientation::Up => Orientation::Left,
            Orientation::Down => Orientation::Right,
            Orientation::Left => Orientation::Down,
            Orientation::Right => Orientation::Up,
        }
    }

    /// The value of the facing in the password.
    pub fn score(&self) -> (r: usize)
        ensures
            r == facing_value(*self),
    {
        match self {
            Orientation::Up => 3,
            Orientation::Down => 1,
            Orientation::Left => 2,
            Orientation::Right => 0,
        }
    }

    /// The arrow that shows the facing.
    pub fn to_string(&self) -> (r: String)
        ensures
            r@ == seq![
                match *self {
                    Orientation::Up => '^',
                    Orientation::Down => 'v',
                    Orientation::Left => '<',
                    Orientation::Right => '>',
                },
            ],
    {
        let s = match self {
            Orientation::Up => "^",
            Orientation::Down => "v",
            Orientation::Left => "<",
            Orientation::Right => ">",
        };
        proof {
            reveal_strlit("^");
            reveal_strlit("v");
            reveal_strlit("<");
            reveal_strlit(">");
        }
        owned(s)
    }
}

/// A left turn undoes a right turn and the other way round; four turns
/// the same way come back to the start, and the four facings have
/// different values.
pub proof fn lemma_turns(o: Orientation)
    ensures
        left_of(right_of(o)) == o,
        right_of(left_of(o)) == o,
        right_of(right_of(right_of(right_of(o)))) == o,
        left_of(left_of(o)) == right_of(right_of(o)),
        0 <= facing_value(o) < 4,
        forall|p: Orientation| facing_value(p) == facing_value(o) ==> p == o,
{
}

/// The facing part of the password counts clockwise quarter turns from
/// facing right: right is worth 0, and each clockwise turn adds one,
/// modulo four.
pub proof fn lemma_facing_counts_turns(o: Orientation)
    ensures
        facing_value(Orientation::Right) == 0,
        facing_value(right_of(o)) == (facing_value(o) + 1) % 4,
        facing_value(left_of(o)) == (facing_value(o) + 3) % 4,
{
}

/// A row of the board: how many blank columns come first, then whether
/// each tile is a wall.
pub struct MapRow {
    pub offset: usize,
    pub data: Vec<bool>,
}

/// The board, row by row.
pub struct Board {
    pub rows: Vec<MapRow>,
}

/// A row as plain values.
pub open spec fn row_view(r: MapRow) -> (int, Seq<bool>) {
    (r.offset as int, r.data@)
}

/// The rows as plain values.
pub open spec fn rows_view(rows: Seq<MapRow>) -> Seq<(int, Seq<bool>)> {
    rows.map_values(|r: MapRow| row_view(r))
}

/// Column `x` lies on the row.
pub open spec fn on_row(r: (int, Seq<bool>), x: int) -> bool {
    r.0 <= x < r.0 + r.1.len()
}

/// A board with at least one row, every row holding a tile.
pub open spec fn board_ok(rv: Seq<(int, Seq<bool>)>) -> bool {
    &&& rv.len() >= 1
    &&& forall|y: int| 0 <= y < rv.len() ==> (#[trigger] rv[y]).1.len() >= 1 && rv[y].0 + rv[y].1.len() < usize::MAX
}

/// A position on a tile of the board.
pub open spec fn valid_pos(rv: Seq<(int, Seq<bool>)>, p: (int, int)) -> bool {
    0 <= p.1 < rv.len() && on_row(rv[p.1], p.0)
}

/// The row before or after `y`, going round.
pub open spec fn row_step(n: int, y: int, up: bool) -> int {
    if up {
        if y == 0 { n - 1 } else { y - 1 }
    } else {
        if y == n - 1 { 0 } else { y + 1 }
    }
}

/// The first row from `c` on, going up or down round the board, that
/// column `x` lies on, trying at most `k` rows after `c`.
pub open spec fn search(rv: Seq<(int, Seq<bool>)>, x: int, c: int, up: bool, k: nat) -> int
    decreases k,
{
    if on_row(rv[c], x) || k == 0 {
        c
    } else {
        search(rv, x, row_step(rv.len() as int, c, up), up, (k - 1) as nat)
    }
}

/// The tile after `p` facing `o`, going round the board's edges.
pub open spec fn advance(rv: Seq<(int, Seq<bool>)>, p: (int, int), o: Orientation) -> (int, int) {
    let (x, y) = p;
    let n = rv.len() as int;
    let row = rv[y];
    match o {
        Orientation::Right => (if x == row.0 + row.1.len() - 1 { row.0 } else { x + 1 }, y),
        Orientation::Left => (if x == row.0 { row.0 + row.1.len() - 1 } else { x - 1 }, y),
        Orientation::Up => (x, search(rv, x, row_step(n, y, true), true, (n - 1) as nat)),
        Orientation::Down => (x, search(rv, x, row_step(n, y, false), false, (n - 1) as nat)),
    }
}

/// Whether the tile at `p` is a wall.
pub open spec fn is_wall(rv: Seq<(int, Seq<bool>)>, p: (int, int)) -> bool {
    rv[p.1].1[p.0 - rv[p.1].0]
}

/// Where `dist` steps facing `o` from `p` end: the walk stops before a
/// wall.
pub open spec fn walk_spec(rv: Seq<(int, Seq<bool>)>, p: (int, int), o: Orientation, dist: nat) -> (int, int)
    decreases dist,
{
    if dist == 0 {
        p
    } else {
        let q = advance(rv, p, o);
        if is_wall(rv, q) {
            p
        } else {
            walk_spec(rv, q, o, (dist - 1) as nat)
        }
    }
}

proof fn lemma_search_found(rv: Seq<(int, Seq<bool>)>, x: int, y0: int, up: bool, m: int)
    requires
        board_ok(rv),
        valid_pos(rv, (x, y0)),
        1 <= m <= rv.len(),
    ensures
        ({
            let n = rv.len() as int;
            let c = if up {
                if m <= y0 { y0 - m } else { y0 - m + n }
            } else {
                if y0 + m < n { y0 + m } else { y0 + m - n }
            };
            &&& 0 <= c < n
            &&& on_row(rv[search(rv, x, c, up, (n - m) as nat)], x)
            &&& 0 <= search(rv, x, c, up, (n - m) as nat) < n
        }),
    decreases rv.len() - m,
{
    let n = rv.len() as int;
    let c = if up {
        if m <= y0 { y0 - m } else { y0 - m + n }
    } else {
        if y0 + m < n { y0 + m } else { y0 + m - n }
    };
    if m < n && !on_row(rv[c], x) {
        lemma_search_found(rv, x, y0, up, m + 1);
        let c2 = if up {
            if m + 1 <= y0 { y0 - m - 1 } else { y0 - m - 1 + n }
        } else {
            if y0 + m + 1 < n { y0 + m + 1 } else { y0 + m + 1 - n }
        };
        assert(row_step(n, c, up) == c2);
    }
}

/// A step keeps the walker on the board.
pub proof fn lemma_advance_valid(rv: Seq<(int, Seq<bool>)>, p: (int, int), o: Orientation)
    requires
        board_ok(rv),
        valid_pos(rv, p),
    ensures
        valid_pos(rv, advance(rv, p, o)),
{
    let n = rv.len() as int;
    assert(rv[p.1].1.len() >= 1);
    match o {
        Orientation::Up => {
            lemma_search_found(rv, p.0, p.1, true, 1);
        },
        Orientation::Down => {
            lemma_search_found(rv, p.0, p.1, false, 1);
        },
        _ => {},
    }
}

/// However far the walker goes, it stays on the board.
pub proof fn lemma_walk_valid(rv: Seq<(int, Seq<bool>)>, p: (int, int), o: Orientation, dist: nat)
    requires
        board_ok(rv),
        valid_pos(rv, p),
    ensures
        valid_pos(rv, walk_spec(rv, p, o, dist)),
    decreases dist,
{
    if dist > 0 {
        lemma_advance_valid(rv, p, o);
        lemma_walk_valid(rv, advance(rv, p, o), o, (dist - 1) as nat);
    }
}

/// The faces of the cube the board folds into.
#[derive(Clone, Copy, PartialEq, Eq, Structural)]
pub enum Face {
    Top,
    Back,
    Left,
    Front,
    Down,
    Right,
}

/// The face holding the tile at latitude `la` and longitude `lo` (in face
/// sizes), as the board is laid out.
pub open spec fn face_at(la: int, lo: int) -> Option<Face> {
    if la == 0 && lo == 2 {
        Some(Face::Top)
    } else if la == 1 && lo == 0 {
        Some(Face::Back)
    } else if la == 1 && lo == 1 {
        Some(Face::Left)
    } else if la == 1 && lo == 2 {
        Some(Face::Front)
    } else if la == 2 && lo == 2 {
        Some(Face::Down)
    } else if la == 2 && lo == 3 {
        Some(Face::Right)
    } else {
        None
    }
}

/// The number of steps of a move, negative ones taking none.
pub open spec fn steps(dist: i64) -> nat {
    if dist < 0 { 0 } else { dist as nat }
}

impl Board {
    pub open spec fn view(&self) -> Seq<(int, Seq<bool>)> {
        rows_view(self.rows@)
    }

    /// The leftmost tile of the top row.
    pub fn initial_pos(&self) -> (r: (usize, usize))
        requires
            self.rows.len() >= 1,
        ensures
            r == (self.rows@[0].offset, 0usize),
    {
        (self.rows[0].offset, 0)
    }

    /// The face of the cube that the tile at `pos` belongs to.
    pub fn face(&self, pos: (usize, usize)) -> (r: Face)
        requires
            self.rows.len() >= 3,
            face_at((pos.1 / (self.rows.len() / 3)) as int, (pos.0 / (self.rows.len() / 3)) as int) is Some,
        ensures
            Some(r) == face_at((pos.1 / (self.rows.len() / 3)) as int, (pos.0 / (self.rows.len() / 3)) as int),
    {
        let (x, y) = pos;
        let face_size = self.rows.len() / 3;
        let latitude = y / face_size;
        let longitude = x / face_size;
        if latitude == 0 && longitude == 2 {
            Face::Top
        } else if latitude == 1 && longitude == 0 {
            Face::Back
        } else if latitude == 1 && longitude == 1 {
            Face::Left
        } else if latitude == 1 && longitude == 2 {
            Face::Front
        } else if latitude == 2 && longitude == 2 {
            Face::Down
        } else {
            Face::Right
        }
    }

    /// The row that column `x` lies on, going up or down round the board
    /// from row `y0`.
    fn find_row(&self, x: usize, y0: usize, up: bool) -> (r: usize)
        requires
            board_ok(self@),
            valid_pos(self@, (x as int, y0 as int)),
        ensures
            r as int == search(self@, x as int, row_step(self@.len() as int, y0 as int, up), up, (self@.len() - 1) as nat),
            valid_pos(self@, (x as int, r as int)),
    {
        let ghost rv = self@;
        let n = self.rows.len();
        let mut c: usize = if up {
            if y0 == 0 { n - 1 } else { y0 - 1 }
        } else {
            if y0 == n - 1 { 0 } else { y0 + 1 }
        };
        let ghost target = search(rv, x as int, c as int, up, (n - 1) as nat);
        proof {
            lemma_search_found(rv, x as int, y0 as int, up, 1);
        }
        let mut m: usize = 1;
        loop
            invariant
                rv == self@,
                n == rv.len(),
                board_ok(rv),
                valid_pos(rv, (x as int, y0 as int)),
                1 <= m <= n,
                c as int == (if up {
                    if m <= y0 { y0 - m } else { y0 - m + n }
                } else {
                    if y0 + m < n { y0 + m } else { y0 + m - n }
                }),
                search(rv, x as int, c as int, up, (n - m) as nat) == target,
                target == search(rv, x as int, row_step(n as int, y0 as int, up), up, (n - 1) as nat),
            decreases n - m,
        {
            proof {
                lemma_search_found(rv, x as int, y0 as int, up, m as int);
            }
            let row = &self.rows[c];
            assert(rv[c as int] == row_view(*row));
            if x >= row.offset && x < row.offset + row.data.len() {
                return c;
            }
            if m == n {
                return c;
            }
            c = if up {
                if c == 0 { n - 1 } else { c - 1 }
            } else {
                if c == n - 1 { 0 } else { c + 1 }
            };
            m = m + 1;
        }
    }

    /// The tile after `pos` facing `o`, going round the edges.
    fn step_to(&self, pos: (usize, usize), o: Orientation) -> (r: (usize, usize))
        requires
            board_ok(self@),
            valid_pos(self@, (pos.0 as int, pos.1 as int)),
        ensures
            (r.0 as int, r.1 as int) == advance(self@, (pos.0 as int, pos.1 as int), o),
            valid_pos(self@, (r.0 as int, r.1 as int)),
    {
        proof {
            lemma_advance_valid(self@, (pos.0 as int, pos.1 as int), o);
        }
        let (x, y) = pos;
        let row = &self.rows[y];
        assert(self@[y as int] == row_view(*row));
        match o {
            Orientation::Right => {
                let new_x = if x == row.offset + row.data.len() - 1 { row.offset } else { x + 1 };
                (new_x, y)
            },
            Orientation::Left => {
                let new_x = if x == row.offset { (row.offset + row.data.len()) - 1 } else { x - 1 };
                (new_x, y)
            },
            Orientation::Up => (x, self.find_row(x, y, true)),
            Orientation::Down => (x, self.find_row(x, y, false)),
        }
    }

    /// Whether the tile at `pos` is a wall.
    fn wall_at(&self, pos: (usize, usize)) -> (r: bool)
        requires
            board_ok(self@),
            valid_pos(self@, (pos.0 as int, pos.1 as int)),
        ensures
            r == is_wall(self@, (pos.0 as int, pos.1 as int)),
    {
        let row = &self.rows[pos.1];
        assert(self@[pos.1 as int] == row_view(*row));
        row.data[pos.0 - row.offset]
    }

    /// Walks `dist` steps facing `o`, stopping before a wall.
    fn walk_toward(&self, pos: (usize, usize), o: Orientation, dist: i64) -> (r: (usize, usize))
        requires
            board_ok(self@),
            valid_pos(self@, (pos.0 as int, pos.1 as int)),
        ensures
            (r.0 as int, r.1 as int) == walk_spec(self@, (pos.0 as int, pos.1 as int), o, steps(dist)),
            valid_pos(self@, (r.0 as int, r.1 as int)),
    {
        let ghost goal = walk_spec(self@, (pos.0 as int, pos.1 as int), o, steps(dist));
        let mut p = pos;
        let mut k: i64 = 0;
        while k < dist
            invariant
                board_ok(self@),
                valid_pos(self@, (p.0 as int, p.1 as int)),
                0 <= k,
                dist >= 0 ==> k <= dist,
                dist >= 0 ==> walk_spec(self@, (p.0 as int, p.1 as int), o, (dist - k) as nat) == goal,
                dist < 0 ==> goal == (pos.0 as int, pos.1 as int) && p == pos,
                goal == walk_spec(self@, (pos.0 as int, pos.1 as int), o, steps(dist)),
            decreases dist - k,
        {
            let q = self.step_to(p, o);
            let ghost d = (dist - k) as nat;
            assert(d > 0);
            assert(walk_spec(self@, (p.0 as int, p.1 as int), o, d) == (if is_wall(self@, (q.0 as int, q.1 as int)) {
                (p.0 as int, p.1 as int)
            } else {
                walk_spec(self@, (q.0 as int, q.1 as int), o, (d - 1) as nat)
            }));
            if self.wall_at(q) {
                return p;
            }
            p = q;
            k = k + 1;
        }
        p
    }

    /// Walks right, wrapping round the row.
    pub fn walk_right(&self, pos: (usize, usize), dist: i64) -> (r: (usize, usize))
        requires
            board_ok(self@),
            valid_pos(self@, (pos.0 as int, pos.1 as int)),
        ensures
            (r.0 as int, r.1 as int) == walk_spec(self@, (pos.0 as int, pos.1 as int), Orientation::Right, steps(dist)),
    {
        self.walk_toward(pos, Orientation::Right, dist)
    }

    /// Walks left, wrapping round the row.
    pub fn walk_left(&self, pos: (usize, usize), dist: i64) -> (r: (usize, usize))
        requires
            board_ok(self@),
            valid_pos(self@, (pos.0 as int, pos.1 as int)),
        ensures
            (r.0 as int, r.1 as int) == walk_spec(self@, (pos.0 as int, pos.1 as int), Orientation::Left, steps(dist)),
    {
        self.walk_toward(pos, Orientation::Left, dist)
    }

    /// Walks up, wrapping round the column.
    pub fn walk_up(&self, pos: (usize, usize), dist: i64) -> (r: (usize, usize))
        requires
            board_ok(self@),
            valid_pos(self@, (pos.0 as int, pos.1 as int)),
        ensures
            (r.0 as int, r.1 as int) == walk_spec(self@, (pos.0 as int, pos.1 as int), Orientation::Up, steps(dist)),
    {
        self.walk_toward(pos, Orientation::Up, dist)
    }

    /// Walks down, wrapping round the column.
    pub fn walk_down(&self, pos: (usize, usize), dist: i64) -> (r: (usize, usize))
        requires
            board_ok(self@),
            valid_pos(self@, (pos.0 as int, pos.1 as int)),
        ensures
            (r.0 as int, r.1 as int) == walk_spec(self@, (pos.0 as int, pos.1 as int), Orientation::Down, steps(dist)),
    {
        self.walk_toward(pos, Orientation::Down, dist)
    }

    /// Walks `dist` steps facing `dir`.
    pub fn walk(&self, pos: (usize, usize), dir: &Orientation, dist: i64) -> (r: (usize, usize))
        requires
            board_ok(self@),
            valid_pos(self@, (pos.0 as int, pos.1 as int)),
        ensures
            (r.0 as int, r.1 as int) == walk_spec(self@, (pos.0 as int, pos.1 as int), *dir, steps(dist)),
            valid_pos(self@, (r.0 as int, r.1 as int)),
    {
        proof {
            lemma_walk_valid(self@, (pos.0 as int, pos.1 as int), *dir, steps(dist));
        }
        match dir {
            Orientation::Up => self.walk_up(pos, dist),
            Orientation::Down => self.walk_down(pos, dist),
            Orientation::Left => self.walk_left(pos, dist),
            Orientation::Right => self.walk_right(pos, dist),
        }
    }
}

/// A step of the path.
#[derive(Clone, Copy, PartialEq, Eq, Structural)]
pub enum Instruction {
    /// Walk this many tiles.
    Forward(i64),
    Right,
    Left,
}

/// The position of the first turn letter in `s`.
pub open spec fn first_turn(s: Seq<char>) -> Option<int>
    decreases s.len(),
{
    if s.len() == 0 {
        None
    } else if s[0] == 'R' || s[0] == 'L' {
        Some(0)
    } else {
        match first_turn(s.drop_first()) {
            Some(i) => Some(i + 1),
            None => None,
        }
    }
}

proof fn lemma_first_turn(s: Seq<char>)
    ensures
        first_turn(s) matches Some(i) ==> 0 <= i < s.len() && (s[i] == 'R' || s[i] == 'L') && forall|j: int|
            0 <= j < i ==> s[j] != 'R' && s[j] != 'L',
        first_turn(s) is None ==> forall|j: int| 0 <= j < s.len() ==> s[j] != 'R' && s[j] != 'L',
    decreases s.len(),
{
    if s.len() > 0 && !(s[0] == 'R' || s[0] == 'L') {
        lemma_first_turn(s.drop_first());
        assert forall|j: int| 1 <= j < s.len() implies s[j] == s.drop_first()[j - 1] by {}
    }
}

/// A move count.
pub open spec fn count_of(s: Seq<char>) -> Option<int> {
    parse_int(s, true, i64::MIN as int, i64::MAX as int)
}

/// What `Instruction::parse` makes of `s`: nothing when it is empty; a
/// turn when it starts with `R` or `L`; else the count before the first
/// turn letter, or the whole text as a count; then the rest. The error is
/// the text that is not a count.
pub open spec fn instr_spec(s: Seq<char>) -> Result<Option<(Instruction, Seq<char>)>, Seq<char>> {
    if s.len() == 0 {
        Ok(None)
    } else {
        match first_turn(s) {
            Some(i) => if i == 0 {
                Ok(Some((if s[0] == 'R' { Instruction::Right } else { Instruction::Left }, s.skip(1))))
            } else {
                match count_of(s.take(i)) {
                    None => Err(s.take(i)),
                    Some(n) => Ok(Some((Instruction::Forward(n as i64), s.skip(i)))),
                }
            },
            None => match count_of(s) {
                None => Err(s),
                Some(n) => Ok(Some((Instruction::Forward(n as i64), Seq::empty()))),
            },
        }
    }
}

/// The instructions of a path, or the first text that is not a count.
pub open spec fn path_spec(s: Seq<char>) -> Result<Seq<Instruction>, Seq<char>>
    decreases s.len(),
{
    match instr_spec(s) {
        Err(t) => Err(t),
        Ok(None) => Ok(Seq::empty()),
        Ok(Some((ins, rest))) => if rest.len() < s.len() {
            match path_spec(rest) {
                Err(t) => Err(t),
                Ok(v) => Ok(seq![ins] + v),
            }
        } else {
            Ok(seq![ins])
        },
    }
}

impl Instruction {
    /// Reads the first instruction of `s` and returns it with the rest.
    pub fn parse(s: &str) -> (r: Result<Option<(Instruction, &str)>, Error>)
        ensures
            r matches Ok(None) ==> instr_spec(s@) == Ok::<Option<(Instruction, Seq<char>)>, Seq<char>>(None),
            r matches Ok(Some((ins, rest))) ==> instr_spec(s@) == Ok::<Option<(Instruction, Seq<char>)>, Seq<char>>(
                Some((ins, rest@)),
            ),
            r matches Err(Error::InvalidNumber(t)) ==> instr_spec(s@) == Err::<Option<(Instruction, Seq<char>)>, Seq<char>>(t@),
            !(r matches Err(Error::InvalidChar(_))),
            !(r matches Err(Error::DuplicateInstructions(_))),
            !(r matches Err(Error::MissingInstructions)),
    {
        let n = s.unicode_len();
        if n == 0 {
            return Ok(None);
        }
        let cs = chars_of(s);
        proof {
            lemma_first_turn(s@);
        }
        let mut i: usize = 0;
        while i < n && cs[i] != 'R' && cs[i] != 'L'
            invariant
                cs@ == s@,
                n == s@.len(),
                i <= n,
                forall|j: int| 0 <= j < i ==> s@[j] != 'R' && s@[j] != 'L',
            decreases n - i,
        {
            i = i + 1;
        }
        if i < n {
            assert(first_turn(s@) == Some(i as int)) by {
                if first_turn(s@) is Some {
                    let k = first_turn(s@)->0;
                    if k < i {
                        assert(s@[k] != 'R' && s@[k] != 'L');
                    }
                }
            }
            if i == 0 {
                let rest = s.substring_char(1, n);
                assert(rest@ =~= s@.skip(1));
                if cs[0] == 'R' {
                    Ok(Some((Instruction::Right, rest)))
                } else {
                    Ok(Some((Instruction::Left, rest)))
                }
            } else {
                let sn = s.substring_char(0, i);
                let rest = s.substring_char(i, n);
                assert(sn@ =~= s@.take(i as int));
                assert(rest@ =~= s@.skip(i as int));
                match parse_i64(sn) {
                    Some(v) => Ok(Some((Instruction::Forward(v), rest))),
                    None => Err(Error::InvalidNumber(owned(sn))),
                }
            }
        } else {
            assert(first_turn(s@) is None);
            match parse_i64(s) {
                Some(v) => {
                    let rest = "";
                    proof {
                        reveal_strlit("");
                    }
                    assert(rest@ =~= Seq::<char>::empty());
                    Ok(Some((Instruction::Forward(v), rest)))
                },
                None => Err(Error::InvalidNumber(owned(s))),
            }
        }
    }

    /// Reads a whole path.
    pub fn parse_list(s: &str) -> (r: Result<Vec<Instruction>, Error>)
        ensures
            r matches Ok(v) ==> path_spec(s@) == Ok::<Seq<Instruction>, Seq<char>>(v@),
            r matches Err(Error::InvalidNumber(t)) ==> path_spec(s@) == Err::<Seq<Instruction>, Seq<char>>(t@),
            r is Err ==> r matches Err(Error::InvalidNumber(_)),
    {
        let mut v: Vec<Instruction> = Vec::new();
        let mut ss = s;
        let ghost mut done: Seq<Instruction> = Seq::empty();
        loop
            invariant
                v@ == done,
                path_spec(s@) == (match path_spec(ss@) {
                    Err(t) => Err(t),
                    Ok(w) => Ok(done + w),
                }),
            decreases ss@.len(),
        {
            match Instruction::parse(ss) {
                Ok(Some((instruction, rest))) => {
                    proof {
                        lemma_instr_shrinks(ss@);
                        assert(path_spec(ss@) == (match path_spec(rest@) {
                            Err(t) => Err(t),
                            Ok(w) => Ok(seq![instruction] + w),
                        }));
                        assert forall|w: Seq<Instruction>| #[trigger] (done + (seq![instruction] + w)) == done.push(
                            instruction,
                        ) + w by {
                            assert(done + (seq![instruction] + w) =~= done.push(instruction) + w);
                        }
                        done = done.push(instruction);
                    }
                    v.push(instruction);
                    ss = rest;
                },
                Ok(None) => {
                    assert(path_spec(ss@) == Ok::<Seq<Instruction>, Seq<char>>(Seq::empty()));
                    assert(done + Seq::<Instruction>::empty() =~= done);
                    return Ok(v);
                },
                Err(e) => {
                    return Err(e);
                },
            }
        }
    }
}

proof fn lemma_instr_shrinks(s: Seq<char>)
    ensures
        instr_spec(s) matches Ok(Some((_, rest))) ==> rest.len() < s.len(),
{
    lemma_first_turn(s);
}

/// A row of the board as read: the spaces count toward the offset, `.`
/// is open and `#` a wall; the error is the first other character.
pub open spec fn row_spec(t: Seq<char>) -> Result<(int, Seq<bool>), char>
    decreases t.len(),
{
    if t.len() == 0 {
        Ok((0, Seq::empty()))
    } else {
        match row_spec(t.drop_last()) {
            Err(c) => Err(c),
            Ok((off, data)) => {
                let c = t.last();
                if c == ' ' {
                    Ok((off + 1, data))
                } else if c == '.' {
                    Ok((off, data.push(false)))
                } else if c == '#' {
                    Ok((off, data.push(true)))
                } else {
                    Err(c)
                }
            },
        }
    }
}

/// The errors of reading the input, as plain values.
pub enum ReadError {
    InvalidNumber(Seq<char>),
    InvalidChar(char),
    DuplicateInstructions(Seq<char>),
    MissingInstructions,
}

/// An error as a plain value.
pub open spec fn read_error(e: Error) -> ReadError {
    match e {
        Error::InvalidNumber(t) => ReadError::InvalidNumber(t@),
        Error::InvalidChar(c) => ReadError::InvalidChar(c),
        Error::DuplicateInstructions(t) => ReadError::DuplicateInstructions(t@),
        Error::MissingInstructions => ReadError::MissingInstructions,
    }
}

/// What the first `n` lines give: the rows so far, the path if read, and
/// whether the board is still being read; or the first error. A blank line
/// (after trimming the end) ends the board.
pub open spec fn read_spec(lines: Seq<Seq<char>>, n: nat) -> Result<
    (Seq<(int, Seq<bool>)>, Option<Seq<Instruction>>, bool),
    ReadError,
>
    decreases n,
{
    if n == 0 {
        Ok((Seq::empty(), None, true))
    } else {
        match read_spec(lines, (n - 1) as nat) {
            Err(e) => Err(e),
            Ok((rows, ins, in_map)) => {
                let t = trimmed_end(lines[n - 1]);
                if t.len() == 0 {
                    Ok((rows, ins, false))
                } else if in_map {
                    match row_spec(t) {
                        Err(c) => Err(ReadError::InvalidChar(c)),
                        Ok(r) => Ok((rows.push(r), ins, true)),
                    }
                } else if ins is Some {
                    Err(ReadError::DuplicateInstructions(t))
                } else {
                    match path_spec(t) {
                        Err(e) => Err(ReadError::InvalidNumber(e)),
                        Ok(p) => Ok((rows, Some(p), false)),
                    }
                }
            },
        }
    }
}

/// Reads one row of the board.
fn read_row(t: &str) -> (r: Result<MapRow, Error>)
    ensures
        r matches Ok(row) ==> row_spec(t@) == Ok::<(int, Seq<bool>), char>(row_view(row)),
        r matches Err(e) ==> e matches Error::InvalidChar(c) && row_spec(t@) == Err::<(int, Seq<bool>), char>(c),
{
    let cs = chars_of(t);
    let n = cs.len();
    let mut data: Vec<bool> = Vec::new();
    let mut offset: usize = 0;
    let mut k: usize = 0;
    while k < n
        invariant
            cs@ == t@,
            n == cs.len(),
            k <= n,
            offset <= k,
            row_spec(t@.take(k as int)) == Ok::<(int, Seq<bool>), char>((offset as int, data@)),
        decreases n - k,
    {
        let c = cs[k];
        assert(t@.take(k + 1).drop_last() =~= t@.take(k as int));
        assert(t@.take(k + 1).last() == c);
        if c == ' ' {
            offset = offset + 1;
        } else if c == '.' {
            data.push(false);
        } else if c == '#' {
            data.push(true);
        } else {
            proof {
                lemma_row_error(t@, (k + 1) as nat);
            }
            return Err(Error::InvalidChar(c));
        }
        k = k + 1;
    }
    assert(t@.take(n as int) =~= t@);
    Ok(MapRow { offset, data })
}

proof fn lemma_row_error(t: Seq<char>, k: nat)
    requires
        k <= t.len(),
        row_spec(t.take(k as int)) is Err,
    ensures
        row_spec(t) == row_spec(t.take(k as int)),
    decreases t.len() - k,
{
    if k < t.len() {
        assert(t.take((k + 1) as int).drop_last() =~= t.take(k as int));
        lemma_row_error(t, k + 1);
    } else {
        assert(t.take(k as int) =~= t);
    }
}

proof fn lemma_read_error(lines: Seq<Seq<char>>, k: nat, n: nat)
    requires
        k <= n,
        read_spec(lines, k) is Err,
    ensures
        read_spec(lines, n) == read_spec(lines, k),
    decreases n - k,
{
    if k < n {
        lemma_read_error(lines, k, (n - 1) as nat);
    }
}

/// Reads the board, a blank line, and the path.
pub fn read_input(lines: &Vec<String>) -> (r: Result<(Board, Vec<Instruction>), Error>)
    ensures
        r matches Ok((b, ins)) ==> read_spec(views_of(lines@), lines.len() as nat) == Ok::<
            (Seq<(int, Seq<bool>)>, Option<Seq<Instruction>>, bool),
            ReadError,
        >((b@, Some(ins@), false)),
        r matches Err(e) ==> (read_spec(views_of(lines@), lines.len() as nat) == Err::<
            (Seq<(int, Seq<bool>)>, Option<Seq<Instruction>>, bool),
            ReadError,
        >(read_error(e)) || (read_error(e) == ReadError::MissingInstructions && read_spec(
            views_of(lines@),
            lines.len() as nat,
        ) matches Ok((_, None, _)))),
{
    let ghost ls = views_of(lines@);
    let mut rows: Vec<MapRow> = Vec::new();
    let mut instructions: Option<Vec<Instruction>> = None;
    let mut in_map = true;
    let n = lines.len();
    let mut k: usize = 0;
    assert(rows_view(rows@) =~= Seq::empty());
    while k < n
        invariant
            n == lines.len(),
            ls == views_of(lines@),
            k <= n,
            read_spec(ls, k as nat) == Ok::<(Seq<(int, Seq<bool>)>, Option<Seq<Instruction>>, bool), ReadError>(
                (
                    rows_view(rows@),
                    match instructions {
                        Some(v) => Some(v@),
                        None => None,
                    },
                    in_map,
                ),
            ),
            instructions is Some ==> !in_map,
        decreases n - k,
    {
        let t = trim_end(lines[k].as_str());
        assert(ls[k as int] == lines@[k as int]@);
        if t.unicode_len() == 0 {
            in_map = false;
        } else if in_map {
            match read_row(t) {
                Ok(row) => {
                    let ghost before = rows@;
                    rows.push(row);
                    assert(rows_view(rows@) =~= rows_view(before).push(row_view(row)));
                },
                Err(e) => {
                    proof {
                        lemma_read_error(ls, (k + 1) as nat, n as nat);
                    }
                    return Err(e);
                },
            }
        } else if instructions.is_some() {
            proof {
                lemma_read_error(ls, (k + 1) as nat, n as nat);
            }
            return Err(Error::DuplicateInstructions(owned(t)));
        } else {
            match Instruction::parse_list(t) {
                Ok(v) => {
                    instructions = Some(v);
                },
                Err(e) => {
                    proof {
                        lemma_read_error(ls, (k + 1) as nat, n as nat);
                    }
                    return Err(e);
                },
            }
        }
        k = k + 1;
    }
    let m = Board { rows };
    match instructions {
        Some(v) => Ok((m, v)),
        None => Err(Error::MissingInstructions),
    }
}

/// The walker after the first `k` instructions: position and facing.
pub open spec fn run_spec(rv: Seq<(int, Seq<bool>)>, p: (int, int), o: Orientation, ins: Seq<Instruction>, k: nat) -> (
    (int, int),
    Orientation,
)
    decreases k,
{
    if k == 0 || k > ins.len() {
        (p, o)
    } else {
        let (q, d) = run_spec(rv, p, o, ins, (k - 1) as nat);
        match ins[k - 1] {
            Instruction::Forward(n) => (walk_spec(rv, q, d, steps(n)), d),
            Instruction::Right => (q, right_of(d)),
            Instruction::Left => (q, left_of(d)),
        }
    }
}

proof fn lemma_run_valid(rv: Seq<(int, Seq<bool>)>, p: (int, int), o: Orientation, ins: Seq<Instruction>, k: nat)
    requires
        board_ok(rv),
        valid_pos(rv, p),
    ensures
        valid_pos(rv, run_spec(rv, p, o, ins, k).0),
    decreases k,
{
    if k > 0 && k <= ins.len() {
        lemma_run_valid(rv, p, o, ins, (k - 1) as nat);
        let (q, d) = run_spec(rv, p, o, ins, (k - 1) as nat);
        if let Instruction::Forward(n) = ins[k - 1] {
            lemma_walk_valid(rv, q, d, steps(n));
        }
    }
}

/// The password of where a walk ends.
pub open spec fn password(p: (int, int), o: Orientation) -> int {
    1000 * (p.1 + 1) + 4 * (p.0 + 1) + facing_value(o)
}

/// Every password on the board fits in `usize`.
pub open spec fn password_fits(rv: Seq<(int, Seq<bool>)>) -> bool {
    forall|y: int| 0 <= y < rv.len() ==> 1000 * rv.len() + 4 * (#[trigger] rv[y]).0 + 4 * rv[y].1.len() + 3 <= usize::MAX
}

/// Follows the path from the leftmost tile of the top row, facing right,
/// and returns the password of where it ends.
pub fn process(board: &Board, instructions: &Vec<Instruction>) -> (r: usize)
    requires
        board_ok(board@),
        password_fits(board@),
    ensures
        ({
            let (p, o) = run_spec(board@, (board@[0].0, 0), Orientation::Right, instructions@, instructions.len() as nat);
            r == password(p, o)
        }),
{
    let ghost rv = board@;
    let mut pos = board.initial_pos();
    let mut dir = Orientation::Right;
    assert(rv[0] == row_view(board.rows@[0]));
    let ghost p0 = (rv[0].0, 0int);
    let n = instructions.len();
    let mut k: usize = 0;
    while k < n
        invariant
            rv == board@,
            board_ok(rv),
            n == instructions.len(),
            k <= n,
            valid_pos(rv, (pos.0 as int, pos.1 as int)),
            run_spec(rv, p0, Orientation::Right, instructions@, k as nat) == ((pos.0 as int, pos.1 as int), dir),
        decreases n - k,
    {
        match instructions[k] {
            Instruction::Forward(dist) => {
                pos = board.walk(pos, &dir, dist);
            },
            Instruction::Right => {
                dir = dir.turn_right();
            },
            Instruction::Left => {
                dir = dir.turn_left();
            },
        }
        k = k + 1;
    }
    proof {
        assert(rv[pos.1 as int].0 + rv[pos.1 as int].1.len() < usize::MAX);
        assert(1000 * rv.len() + 4 * rv[pos.1 as int].0 + 4 * rv[pos.1 as int].1.len() + 3 <= usize::MAX);
    }
    1000 * (pos.1 + 1) + 4 * (pos.0 + 1) + dir.score()
}

} // verus!
