//! Cube conundrum: games of cubes drawn from a bag; which games the bag's
//! contents allow, and the power of the fewest cubes each game needs.
use vstd::prelude::*;
use crate::text::{
    chars_of, find_char, find_spec, find_str, find_str_spec, nonblank, nonblank_lines, parse_int, parse_u32,
    split_spec, split_str, str_equal, strip_prefix, views_of, lemma_find_str,
};

verus! {

/// Errors of this puzzle.
pub enum Error {
    /// A line does not start with `Game `; the text is the line.
    InvalidLine(String),
    /// No `: ` after the game number; the text is what follows `Game `.
    InvalidGame(String),
    /// A count is not a number; the text is the count.
    InvalidNumber(String),
    /// A draw of one color has no space; the text is the draw.
    InvalidCount(String),
}

/// Why a line does not parse, as plain values.
pub enum Failure {
    InvalidLine(Seq<char>),
    InvalidGame(Seq<char>),
    InvalidNumber(Seq<char>),
    InvalidCount(Seq<char>),
}

/// A failure as a plain value.
pub open spec fn failure(e: Error) -> Failure {
    match e {
        Error::InvalidLine(s) => Failure::InvalidLine(s@),
        Error::InvalidGame(s) => Failure::InvalidGame(s@),
        Error::InvalidNumber(s) => Failure::InvalidNumber(s@),
        Error::InvalidCount(s) => Failure::InvalidCount(s@),
    }
}

/// A draw: how many cubes of each color, as listed; a color listed twice
/// counts with its last number.
pub type Draw = Vec<(String, u32)>;

/// A game: its number and its draws.
pub struct Game {
    pub number: u32,
    pub draws: Vec<Draw>,
}

/// A draw as plain values.
pub open spec fn draw_view(d: Draw) -> Seq<(Seq<char>, u32)> {
    d@.map_values(|e: (String, u32)| (e.0@, e.1))
}

/// The draws of a game as plain values.
pub open spec fn draws_view(ds: Seq<Draw>) -> Seq<Seq<(Seq<char>, u32)>> {
    ds.map_values(|d: Draw| draw_view(d))
}

/// The value of a decimal `u32`.
pub open spec fn count_value(s: Seq<char>) -> Option<int> {
    parse_int(s, false, 0, u32::MAX as int)
}

/// What one color's part of a draw says: its count and color.
pub open spec fn entry_spec(part: Seq<char>) -> Result<(Seq<char>, u32), Failure> {
    match find_spec(part, ' ') {
        None => Err(Failure::InvalidCount(part)),
        Some(i) => match count_value(part.take(i)) {
            None => Err(Failure::InvalidNumber(part.take(i))),
            Some(v) => Ok((part.skip(i + 1), v as u32)),
        },
    }
}

/// The entries of the parts, in order, or the first failure.
pub open spec fn entries_spec(parts: Seq<Seq<char>>) -> Result<Seq<(Seq<char>, u32)>, Failure>
    decreases parts.len(),
{
    if parts.len() == 0 {
        Ok(Seq::empty())
    } else {
        match entries_spec(parts.drop_last()) {
            Err(f) => Err(f),
            Ok(v) => match entry_spec(parts.last()) {
                Err(f) => Err(f),
                Ok(e) => Ok(v.push(e)),
            },
        }
    }
}

/// The draws of the texts, in order, or the first failure.
pub open spec fn draws_spec(ds: Seq<Seq<char>>) -> Result<Seq<Seq<(Seq<char>, u32)>>, Failure>
    decreases ds.len(),
{
    if ds.len() == 0 {
        Ok(Seq::empty())
    } else {
        match draws_spec(ds.drop_last()) {
            Err(f) => Err(f),
            Ok(v) => match entries_spec(split_spec(ds.last(), ", "@)) {
                Err(f) => Err(f),
                Ok(d) => Ok(v.push(d)),
            },
        }
    }
}

/// What a line `Game n: draw; draw; ...` says, or why it does not parse.
#[verifier::opaque]
pub open spec fn game_spec(l: Seq<char>) -> Result<(u32, Seq<Seq<(Seq<char>, u32)>>), Failure> {
    if !(5 <= l.len() && l.take(5) == "Game "@) {
        Err(Failure::InvalidLine(l))
    } else {
        let r = l.skip(5);
        match find_str_spec(r, ": "@) {
            None => Err(Failure::InvalidGame(r)),
            Some(i) => match count_value(r.take(i)) {
                None => Err(Failure::InvalidNumber(r.take(i))),
                Some(num) => match draws_spec(split_spec(r.skip(i + 2), "; "@)) {
                    Err(f) => Err(f),
                    Ok(ds) => Ok((num as u32, ds)),
                },
            },
        }
    }
}

proof fn lemma_entries_err(parts: Seq<Seq<char>>, k: int, f: Failure)
    requires
        0 <= k <= parts.len(),
        entries_spec(parts.take(k)) == Err::<Seq<(Seq<char>, u32)>, Failure>(f),
    ensures
        entries_spec(parts) == Err::<Seq<(Seq<char>, u32)>, Failure>(f),
    decreases parts.len() - k,
{
    if k < parts.len() {
        assert(parts.take(k + 1).drop_last() =~= parts.take(k));
        lemma_entries_err(parts, k + 1, f);
    } else {
        assert(parts.take(k) =~= parts);
    }
}

proof fn lemma_draws_err(ds: Seq<Seq<char>>, k: int, f: Failure)
    requires
        0 <= k <= ds.len(),
        draws_spec(ds.take(k)) == Err::<Seq<Seq<(Seq<char>, u32)>>, Failure>(f),
    ensures
        draws_spec(ds) == Err::<Seq<Seq<(Seq<char>, u32)>>, Failure>(f),
    decreases ds.len() - k,
{
    if k < ds.len() {
        assert(ds.take(k + 1).drop_last() =~= ds.take(k));
        lemma_draws_err(ds, k + 1, f);
    } else {
        assert(ds.take(k) =~= ds);
    }
}

/// Reads the cubes of one draw: `3 blue, 4 red`.
fn read_draw(text: &str) -> (r: Result<Draw, Error>)
    ensures
        entries_spec(split_spec(text@, ", "@)) matches Ok(d) ==> r matches Ok(w) && draw_view(w) == d,
        entries_spec(split_spec(text@, ", "@)) matches Err(f) ==> r matches Err(e) && failure(e) == f,
{
    let sep = ", ";
    proof {
        reveal_strlit(", ");
    }
    let parts = split_str(text, sep);
    let ghost ps = split_spec(text@, ", "@);
    let mut draw: Draw = Vec::new();
    let n = parts.len();
    proof {
        assert(views_of(parts@) == ps);
        assert(ps.take(0) =~= Seq::<Seq<char>>::empty());
        assert(draw_view(draw) =~= Seq::<(Seq<char>, u32)>::empty());
    }
    for k in 0..n
        invariant
            n == parts@.len(),
            ps == split_spec(text@, ", "@),
            views_of(parts@) == ps,
            ps.len() == n,
            entries_spec(ps.take(k as int)) == Ok::<Seq<(Seq<char>, u32)>, Failure>(draw_view(draw)),
    {
        let part = parts[k].as_str();
        proof {
            assert(ps[k as int] == part@);
            assert(ps.take(k + 1).drop_last() =~= ps.take(k as int));
            assert(ps.take(k + 1).last() == part@);
        }
        let i = match find_char(part, ' ') {
            Some(i) => i,
            None => {
                proof {
                    lemma_entries_err(ps, k + 1, Failure::InvalidCount(part@));
                }
                return Err(Error::InvalidCount(part.to_owned()));
            },
        };
        let m = part.unicode_len();
        proof {
            crate::text::lemma_find_in_range(part@, ' ');
        }
        let count_str = part.substring_char(0, i);
        let color = part.substring_char(i + 1, m);
        let count = match parse_u32(count_str) {
            Some(c) => c,
            None => {
                proof {
                    lemma_entries_err(ps, k + 1, Failure::InvalidNumber(count_str@));
                }
                return Err(Error::InvalidNumber(count_str.to_owned()));
            },
        };
        let ghost before = draw_view(draw);
        draw.push((color.to_owned(), count));
        proof {
            assert(draw_view(draw) =~= before.push((color@, count)));
        }
    }
    proof {
        assert(ps.take(n as int) =~= ps);
    }
    Ok(draw)
}

impl Game {
    /// A game as plain values.
    pub open spec fn view(&self) -> (u32, Seq<Seq<(Seq<char>, u32)>>) {
        (self.number, draws_view(self.draws@))
    }
}

/// Reads a line `Game n: draw; draw; ...`.
pub fn read_game(line: &str) -> (r: Result<Game, Error>)
    ensures
        game_spec(line@) matches Ok(g) ==> r matches Ok(w) && w@ == g,
        game_spec(line@) matches Err(f) ==> r matches Err(e) && failure(e) == f,
{
    let head = "Game ";
    let colon = ": ";
    let semi = "; ";
    proof {
        reveal_strlit("Game ");
        reveal_strlit(": ");
        reveal_strlit("; ");
        reveal(game_spec);
    }
    let r = match strip_prefix(line, head) {
        Some(r) => r,
        None => return Err(Error::InvalidLine(line.to_owned())),
    };
    let i = match find_str(r, colon) {
        Some(i) => i,
        None => return Err(Error::InvalidGame(r.to_owned())),
    };
    proof {
        lemma_find_str(r@, colon@);
    }
    let n = r.unicode_len();
    let num_str = r.substring_char(0, i);
    let rest = r.substring_char(i + 2, n);
    let number = match parse_u32(num_str) {
        Some(v) => v,
        None => return Err(Error::InvalidNumber(num_str.to_owned())),
    };
    let texts = split_str(rest, semi);
    let ghost ts = split_spec(rest@, "; "@);
    let mut draws: Vec<Draw> = Vec::new();
    let m = texts.len();
    proof {
        assert(views_of(texts@) == ts);
        assert(ts.take(0) =~= Seq::<Seq<char>>::empty());
        assert(draws_view(draws@) =~= Seq::<Seq<(Seq<char>, u32)>>::empty());
        assert(r@ == line@.skip(5));
        assert(num_str@ == r@.take(i as int));
        assert(rest@ == r@.skip(i + 2));
        assert(game_spec(line@) == match draws_spec(ts) {
            Err(f) => Err(f),
            Ok(ds) => Ok((number, ds)),
        });
    }
    for k in 0..m
        invariant
            m == texts@.len(),
            ts == split_spec(rest@, "; "@),
            game_spec(line@) == match draws_spec(ts) {
                Err(f) => Err(f),
                Ok(ds) => Ok((number, ds)),
            },
            views_of(texts@) == ts,
            ts.len() == m,
            draws_spec(ts.take(k as int)) == Ok::<Seq<Seq<(Seq<char>, u32)>>, Failure>(draws_view(draws@)),
    {
        proof {
            assert(ts[k as int] == texts@[k as int]@);
            assert(ts.take(k + 1).drop_last() =~= ts.take(k as int));
            assert(ts.take(k + 1).last() == ts[k as int]);
        }
        match read_draw(texts[k].as_str()) {
            Ok(d) => {
                let ghost before = draws_view(draws@);
                draws.push(d);
                proof {
                    assert(draws_view(draws@) =~= before.push(draw_view(d)));
                }
            },
            Err(e) => {
                proof {
                    lemma_draws_err(ts, k + 1, failure(e));
                }
                return Err(e);
            },
        }
    }
    proof {
        assert(ts.take(m as int) =~= ts);
    }
    Ok(Game { number, draws })
}

/// How many cubes of color `c` a draw shows: the number of its last entry
/// of that color, if any.
pub open spec fn count_of(d: Seq<(Seq<char>, u32)>, c: Seq<char>) -> Option<u32>
    decreases d.len(),
{
    if d.len() == 0 {
        None
    } else if d.last().0 == c {
        Some(d.last().1)
    } else {
        count_of(d.drop_last(), c)
    }
}

/// How many cubes of color `c` the bag holds (zero when it is not listed).
pub open spec fn total_of(totals: Seq<(Seq<char>, u32)>, c: Seq<char>) -> int {
    match count_of(totals, c) {
        Some(n) => n as int,
        None => 0,
    }
}

/// No draw shows more cubes of a color than the bag holds.
pub open spec fn possible(draws: Seq<Seq<(Seq<char>, u32)>>, totals: Seq<(Seq<char>, u32)>) -> bool {
    forall|i: int, c: Seq<char>| 0 <= i < draws.len() ==> (#[trigger] count_of(draws[i], c) matches Some(n) ==> n
        <= total_of(totals, c))
}

proof fn lemma_count_of(d: Seq<(Seq<char>, u32)>, c: Seq<char>)
    ensures
        count_of(d, c) is Some <==> exists|k: int| 0 <= k < d.len() && (#[trigger] d[k]).0 == c,
    decreases d.len(),
{
    if d.len() > 0 {
        lemma_count_of(d.drop_last(), c);
        if exists|k: int| 0 <= k < d.len() && (#[trigger] d[k]).0 == c {
            let k = choose|k: int| 0 <= k < d.len() && (#[trigger] d[k]).0 == c;
            if k < d.len() - 1 {
                assert(d.drop_last()[k] == d[k]);
            }
        }
        if exists|k: int| 0 <= k < d.len() - 1 && (#[trigger] d.drop_last()[k]).0 == c {
            let k = choose|k: int| 0 <= k < d.len() - 1 && (#[trigger] d.drop_last()[k]).0 == c;
            assert(d[k] == d.drop_last()[k]);
        }
        if d.last().0 == c {
            assert(d[d.len() - 1].0 == c);
        }
    }
}

/// The number of the last entry of color `c`.
fn last_count(d: &Vec<(String, u32)>, c: &str) -> (r: Option<u32>)
    ensures
        r == count_of(draw_view(*d), c@),
{
    let ghost dv = draw_view(*d);
    let mut r: Option<u32> = None;
    let n = d.len();
    for k in 0..n
        invariant
            n == d@.len(),
            dv == draw_view(*d),
            r == count_of(dv.take(k as int), c@),
    {
        proof {
            assert(dv.take(k + 1).drop_last() =~= dv.take(k as int));
            assert(dv.take(k + 1).last() == dv[k as int]);
            assert(dv[k as int] == (d@[k as int].0@, d@[k as int].1));
        }
        if str_equal(d[k].0.as_str(), c) {
            r = Some(d[k].1);
        }
    }
    proof {
        assert(dv.take(n as int) =~= dv);
    }
    r
}

impl Game {
    /// Whether no draw shows more cubes of a color than the bag holds.
    pub fn is_possible(&self, totals: &Vec<(String, u32)>) -> (r: bool)
        ensures
            r == possible(self@.1, draw_view(*totals)),
    {
        let ghost ds = self@.1;
        let nd = self.draws.len();
        for i in 0..nd
            invariant
                nd == self.draws@.len(),
                ds == self@.1,
                forall|i2: int, c: Seq<char>| 0 <= i2 < i ==> (#[trigger] count_of(ds[i2], c) matches Some(n) ==> n
                    <= total_of(draw_view(*totals), c)),
        {
            let draw = &self.draws[i];
            let ghost dv = draw_view(*draw);
            proof {
                assert(ds[i as int] == dv);
            }
            let ne = draw.len();
            for k in 0..ne
                invariant
                    ne == draw@.len(),
                    dv == draw_view(*draw),
                    ds[i as int] == dv,
                    i < nd,
                    nd == self.draws@.len(),
                    ds == self@.1,
                    forall|k2: int| 0 <= k2 < k ==> (count_of(dv, (#[trigger] dv[k2]).0) matches Some(n) ==> n <= total_of(
                        draw_view(*totals),
                        dv[k2].0,
                    )),
            {
                let color = draw[k].0.as_str();
                proof {
                    assert(dv[k as int].0 == color@);
                }
                let n = match last_count(draw, color) {
                    Some(n) => n,
                    None => 0,
                };
                let t = match last_count(totals, color) {
                    Some(t) => t,
                    None => 0,
                };
                proof {
                    lemma_count_of(dv, color@);
                    assert(dv[k as int].0 == color@);
                }
                if n > t {
                    proof {
                        assert(count_of(ds[i as int], color@) == Some(n));
                    }
                    return false;
                }
            }
            proof {
                assert forall|c: Seq<char>| true implies (#[trigger] count_of(ds[i as int], c) matches Some(n) ==> n <= total_of(
                    draw_view(*totals),
                    c,
                )) by {
                    lemma_count_of(dv, c);
                    if count_of(dv, c) is Some {
                        let k2 = choose|k2: int| 0 <= k2 < dv.len() && (#[trigger] dv[k2]).0 == c;
                    }
                }
            }
        }
        true
    }
}

/// The most cubes of color `c` that any of the first `n` draws shows (zero
/// when none shows that color).
pub open spec fn max_count(draws: Seq<Seq<(Seq<char>, u32)>>, c: Seq<char>, n: nat) -> int
    decreases n,
{
    if n == 0 {
        0
    } else {
        let m = max_count(draws, c, (n - 1) as nat);
        match count_of(draws[n - 1], c) {
            Some(v) => if v > m { v as int } else { m },
            None => m,
        }
    }
}

/// `cs` followed by the colors of `d` that it lacks, in order of first
/// appearance.
pub open spec fn add_colors(cs: Seq<Seq<char>>, d: Seq<(Seq<char>, u32)>) -> Seq<Seq<char>>
    decreases d.len(),
{
    if d.len() == 0 {
        cs
    } else {
        let r = add_colors(cs, d.drop_last());
        if r.contains(d.last().0) { r } else { r.push(d.last().0) }
    }
}

/// The colors of the first `n` draws, in order of first appearance.
pub open spec fn colors_upto(draws: Seq<Seq<(Seq<char>, u32)>>, n: nat) -> Seq<Seq<char>>
    decreases n,
{
    if n == 0 {
        Seq::empty()
    } else {
        add_colors(colors_upto(draws, (n - 1) as nat), draws[n - 1])
    }
}

/// The fewest cubes of color `c` the game needs, or one when it needs none.
pub open spec fn factor(draws: Seq<Seq<(Seq<char>, u32)>>, c: Seq<char>) -> int {
    let m = max_count(draws, c, draws.len());
    if m > 0 { m } else { 1 }
}

/// The fewest cubes of each color in `cs` that the game needs, multiplied.
pub open spec fn product(draws: Seq<Seq<(Seq<char>, u32)>>, cs: Seq<Seq<char>>) -> int
    decreases cs.len(),
{
    if cs.len() == 0 {
        1
    } else {
        product(draws, cs.drop_last()) * factor(draws, cs.last())
    }
}

/// The power of a game: the fewest cubes of each color that it needs,
/// multiplied over the colors it shows.
pub open spec fn power_spec(draws: Seq<Seq<(Seq<char>, u32)>>) -> int {
    product(draws, colors_upto(draws, draws.len()))
}

proof fn lemma_max_count(draws: Seq<Seq<(Seq<char>, u32)>>, c: Seq<char>, n: nat)
    requires
        n <= draws.len(),
    ensures
        0 <= max_count(draws, c, n) <= u32::MAX,
    decreases n,
{
    if n > 0 {
        lemma_max_count(draws, c, (n - 1) as nat);
    }
}

proof fn lemma_product_prefix(draws: Seq<Seq<(Seq<char>, u32)>>, cs: Seq<Seq<char>>, j: int)
    requires
        0 <= j <= cs.len(),
    ensures
        1 <= product(draws, cs.take(j)) <= product(draws, cs),
    decreases cs.len(),
{
    lemma_max_count(draws, cs.last(), draws.len());
    if j == cs.len() {
        assert(cs.take(j) =~= cs);
        if cs.len() > 0 {
            lemma_product_prefix(draws, cs.drop_last(), cs.len() - 1);
            assert(cs.drop_last().take(cs.len() - 1) =~= cs.drop_last());
            let a = product(draws, cs.drop_last());
            let f = factor(draws, cs.last());
            assert(a * f >= 1) by (nonlinear_arith)
                requires
                    a >= 1,
                    f >= 1,
            ;
        }
    } else {
        lemma_product_prefix(draws, cs.drop_last(), j);
        assert(cs.drop_last().take(j) =~= cs.take(j));
        let a = product(draws, cs.drop_last());
        let f = factor(draws, cs.last());
        assert(a <= a * f) by (nonlinear_arith)
            requires
                a >= 1,
                f >= 1,
        ;
    }
}

/// Whether `s` is among the strings.
fn contains_str(v: &Vec<String>, s: &str) -> (r: bool)
    ensures
        r == views_of(v@).contains(s@),
{
    let n = v.len();
    for k in 0..n
        invariant
            n == v@.len(),
            forall|j: int| 0 <= j < k ==> views_of(v@)[j] != s@,
    {
        if str_equal(v[k].as_str(), s) {
            proof {
                assert(views_of(v@)[k as int] == s@);
            }
            return true;
        }
    }
    false
}

impl Game {
    /// The power of the game: the fewest cubes of each color that it needs,
    /// multiplied over the colors it shows.
    pub fn power(&self) -> (r: u32)
        requires
            power_spec(self@.1) <= u32::MAX,
        ensures
            r == power_spec(self@.1),
    {
        let ghost ds = self@.1;
        let mut colors: Vec<String> = Vec::new();
        let nd = self.draws.len();
        proof {
            assert(views_of(colors@) =~= Seq::<Seq<char>>::empty());
        }
        for i in 0..nd
            invariant
                nd == self.draws@.len(),
                ds == self@.1,
                views_of(colors@) == colors_upto(ds, i as nat),
        {
            let draw = &self.draws[i];
            let ghost dv = draw_view(*draw);
            let ghost base = colors_upto(ds, i as nat);
            proof {
                assert(ds[i as int] == dv);
                assert(dv.take(0) =~= Seq::<(Seq<char>, u32)>::empty());
            }
            let ne = draw.len();
            for k in 0..ne
                invariant
                    ne == draw@.len(),
                    dv == draw_view(*draw),
                    views_of(colors@) == add_colors(base, dv.take(k as int)),
            {
                let c = draw[k].0.as_str();
                proof {
                    assert(dv[k as int].0 == c@);
                    assert(dv.take(k + 1).drop_last() =~= dv.take(k as int));
                    assert(dv.take(k + 1).last() == dv[k as int]);
                }
                if !contains_str(&colors, c) {
                    let ghost before = views_of(colors@);
                    colors.push(c.to_owned());
                    proof {
                        assert(views_of(colors@) =~= before.push(c@));
                    }
                }
            }
            proof {
                assert(dv.take(ne as int) =~= dv);
            }
        }
        let ghost cs = views_of(colors@);
        let nc = colors.len();
        let mut p: u32 = 1;
        proof {
            assert(cs.take(0) =~= Seq::<Seq<char>>::empty());
        }
        for j in 0..nc
            invariant
                nc == colors@.len(),
                nd == self.draws@.len(),
                ds == self@.1,
                ds.len() == nd,
                cs == views_of(colors@),
                cs == colors_upto(ds, nd as nat),
                power_spec(ds) <= u32::MAX,
                p == product(ds, cs.take(j as int)),
        {
            let mut mx: u32 = 0;
            for i in 0..nd
                invariant
                    nd == self.draws@.len(),
                    ds == self@.1,
                    j < nc,
                    nc == colors@.len(),
                    cs == views_of(colors@),
                    mx == max_count(ds, cs[j as int], i as nat),
            {
                proof {
                    assert(ds[i as int] == draw_view(self.draws@[i as int]));
                    assert(cs[j as int] == colors@[j as int]@);
                }
                match last_count(&self.draws[i], colors[j].as_str()) {
                    Some(v) => {
                        if v > mx {
                            mx = v;
                        }
                    },
                    None => {},
                }
            }
            proof {
                lemma_product_prefix(ds, cs, j + 1);
                assert(cs.take(j + 1).drop_last() =~= cs.take(j as int));
                assert(cs.take(j + 1).last() == cs[j as int]);
                lemma_max_count(ds, cs[j as int], nd as nat);
            }
            if mx > 0 {
                p = p * mx;
            }
        }
        proof {
            assert(cs.take(nc as int) =~= cs);
        }
        p
    }
}

/// What the lines say: the game of each line, in order, or the failure of
/// the first line that does not parse.
pub open spec fn games_spec(ls: Seq<Seq<char>>) -> Result<Seq<(u32, Seq<Seq<(Seq<char>, u32)>>)>, Failure>
    decreases ls.len(),
{
    if ls.len() == 0 {
        Ok(Seq::empty())
    } else {
        match games_spec(ls.drop_last()) {
            Err(f) => Err(f),
            Ok(v) => match game_spec(ls.last()) {
                Err(f) => Err(f),
                Ok(g) => Ok(v.push(g)),
            },
        }
    }
}

proof fn lemma_games_err(ls: Seq<Seq<char>>, k: int, f: Failure)
    requires
        0 <= k <= ls.len(),
        games_spec(ls.take(k)) == Err::<Seq<(u32, Seq<Seq<(Seq<char>, u32)>>)>, Failure>(f),
    ensures
        games_spec(ls) == Err::<Seq<(u32, Seq<Seq<(Seq<char>, u32)>>)>, Failure>(f),
    decreases ls.len() - k,
{
    if k < ls.len() {
        assert(ls.take(k + 1).drop_last() =~= ls.take(k));
        lemma_games_err(ls, k + 1, f);
    } else {
        assert(ls.take(k) =~= ls);
    }
}

/// The bag: 12 red, 13 green and 14 blue cubes.
pub open spec fn bag() -> Seq<(Seq<char>, u32)> {
    seq![("red"@, 12u32), ("green"@, 13u32), ("blue"@, 14u32)]
}

/// The sum of the numbers of the first `n` games that the bag allows.
pub open spec fn possible_sum(gs: Seq<(u32, Seq<Seq<(Seq<char>, u32)>>)>, n: nat) -> int
    decreases n,
{
    if n == 0 {
        0
    } else {
        possible_sum(gs, (n - 1) as nat) + if possible(gs[n - 1].1, bag()) { gs[n - 1].0 as int } else { 0 }
    }
}

/// The sum of the powers of the first `n` games.
pub open spec fn power_sum(gs: Seq<(u32, Seq<Seq<(Seq<char>, u32)>>)>, n: nat) -> int
    decreases n,
{
    if n == 0 {
        0
    } else {
        power_sum(gs, (n - 1) as nat) + power_spec(gs[n - 1].1)
    }
}

proof fn lemma_sums_grow(gs: Seq<(u32, Seq<Seq<(Seq<char>, u32)>>)>, m: nat, n: nat)
    requires
        m <= n <= gs.len(),
    ensures
        0 <= possible_sum(gs, m) <= possible_sum(gs, n),
        0 <= power_sum(gs, m) <= power_sum(gs, n),
    decreases n,
{
    if n > 0 {
        let c = colors_upto(gs[n - 1].1, gs[n - 1].1.len());
        lemma_product_prefix(gs[n - 1].1, c, 0);
        if m < n {
            lemma_sums_grow(gs, m, (n - 1) as nat);
        } else {
            lemma_sums_grow(gs, (n - 1) as nat, (n - 1) as nat);
        }
    }
}

/// The games as plain values.
pub open spec fn games_view(gs: Seq<Game>) -> Seq<(u32, Seq<Seq<(Seq<char>, u32)>>)> {
    gs.map_values(|g: Game| g@)
}

/// Reads the games, one per line that holds more than whitespace.
pub fn read_games(lines: &Vec<String>) -> (r: Result<Vec<Game>, Error>)
    ensures
        games_spec(nonblank(views_of(lines@))) matches Err(f) ==> r matches Err(e) && failure(e) == f,
        games_spec(nonblank(views_of(lines@))) matches Ok(gs) ==> r matches Ok(w) && games_view(w@) == gs,
{
    let ls = nonblank_lines(lines);
    let ghost v = nonblank(views_of(lines@));
    let mut games: Vec<Game> = Vec::new();
    let n = ls.len();
    proof {
        assert(views_of(ls@) == v);
        assert(v.take(0) =~= Seq::<Seq<char>>::empty());
        assert(games_view(games@) =~= Seq::<(u32, Seq<Seq<(Seq<char>, u32)>>)>::empty());
    }
    for i in 0..n
        invariant
            n == ls@.len(),
            views_of(ls@) == v,
            v == nonblank(views_of(lines@)),
            v.len() == n,
            games_spec(v.take(i as int)) == Ok::<Seq<(u32, Seq<Seq<(Seq<char>, u32)>>)>, Failure>(games_view(games@)),
    {
        proof {
            assert(v[i as int] == ls@[i as int]@);
            assert(v.take(i + 1).drop_last() =~= v.take(i as int));
            assert(v.take(i + 1).last() == v[i as int]);
        }
        match read_game(ls[i].as_str()) {
            Ok(g) => {
                let ghost before = games_view(games@);
                games.push(g);
                proof {
                    assert(games_view(games@) =~= before.push(g@));
                }
            },
            Err(e) => {
                proof {
                    lemma_games_err(v, (i + 1) as int, failure(e));
                }
                return Err(e);
            },
        }
    }
    proof {
        assert(v.take(n as int) =~= v);
    }
    Ok(games)
}

/// The sum of the numbers of the games that a bag of 12 red, 13 green and
/// 14 blue cubes allows, and the sum of the games' powers.
pub fn answers(games: &Vec<Game>) -> (r: (u64, u64))
    requires
        forall|k: int| 0 <= k < games@.len() ==> power_spec(#[trigger] games_view(games@)[k].1) <= u32::MAX,
        possible_sum(games_view(games@), games@.len() as nat) <= u64::MAX,
        power_sum(games_view(games@), games@.len() as nat) <= u64::MAX,
    ensures
        r.0 == possible_sum(games_view(games@), games@.len() as nat),
        r.1 == power_sum(games_view(games@), games@.len() as nat),
{
    let ghost gv = games_view(games@);
    let mut totals: Vec<(String, u32)> = Vec::new();
    totals.push(("red".to_owned(), 12));
    totals.push(("green".to_owned(), 13));
    totals.push(("blue".to_owned(), 14));
    proof {
        reveal_strlit("red");
        reveal_strlit("green");
        reveal_strlit("blue");
        assert(draw_view(totals) =~= bag());
    }
    let mut ans1: u64 = 0;
    let mut ans2: u64 = 0;
    let n = games.len();
    for k in 0..n
        invariant
            n == games@.len(),
            gv == games_view(games@),
            forall|j: int| 0 <= j < n ==> power_spec(#[trigger] gv[j].1) <= u32::MAX,
            possible_sum(gv, n as nat) <= u64::MAX,
            power_sum(gv, n as nat) <= u64::MAX,
            draw_view(totals) == bag(),
            ans1 == possible_sum(gv, k as nat),
            ans2 == power_sum(gv, k as nat),
    {
        let g = &games[k];
        proof {
            assert(g@ == gv[k as int]);
            lemma_sums_grow(gv, (k + 1) as nat, n as nat);
        }
        if g.is_possible(&totals) {
            ans1 = ans1 + g.number as u64;
        }
        let pw = g.power();
        ans2 = ans2 + pw as u64;
    }
    (ans1, ans2)
}

/// Reads the games and gives the two sums of `answers`.
pub fn process(lines: &Vec<String>) -> (r: Result<(u64, u64), Error>)
    requires
        games_spec(nonblank(views_of(lines@))) matches Ok(gs) ==> {
            &&& forall|k: int| 0 <= k < gs.len() ==> power_spec(#[trigger] gs[k].1) <= u32::MAX
            &&& possible_sum(gs, gs.len()) <= u64::MAX
            &&& power_sum(gs, gs.len()) <= u64::MAX
        },
    ensures
        games_spec(nonblank(views_of(lines@))) matches Err(f) ==> r matches Err(e) && failure(e) == f,
        games_spec(nonblank(views_of(lines@))) matches Ok(gs) ==> r matches Ok((a, b)) && a == possible_sum(gs, gs.len())
            && b == power_sum(gs, gs.len()),
{
    let games = read_games(lines)?;
    proof {
        assert(games_view(games@).len() == games@.len());
    }
    Ok(answers(&games))
}

} // verus!
