//! Rock, paper, scissors: score a strategy guide of rounds.
use vstd::prelude::*;
use crate::common::string_views;
use crate::text::char_to_string;

verus! {

/// Errors of this puzzle.
pub enum Error {
    /// The input was malformed; the text names the offending part.
    InvalidArgument(String),
}

/// `c` names a shape: `A` rock, `B` paper, `C` scissors.
pub open spec fn is_play(c: char) -> bool {
    c == 'A' || c == 'B' || c == 'C'
}

/// The outcome score of playing `you` against `other`: 6 for a win, 3 for a
/// draw, 0 for a loss.
pub open spec fn outcome(you: char, other: char) -> u32 {
    if you == other {
        3
    } else if (you == 'A' && other == 'C') || (you == 'B' && other == 'A') || (you == 'C' && other == 'B') {
        6
    } else {
        0
    }
}

/// The outcome score of `you` against `other`.
///
/// Fails with `you` when it is not a shape, else with `other` when that is
/// not one.
pub fn beats(you: &char, other: &char) -> (r: Result<u32, Error>)
    ensures
        is_play(*you) && is_play(*other) ==> r == Ok::<u32, Error>(outcome(*you, *other)),
        !is_play(*you) ==> (r matches Err(Error::InvalidArgument(s)) && s@ == seq![*you]),
        is_play(*you) && !is_play(*other) ==> (r matches Err(Error::InvalidArgument(s)) && s@ == seq![*other]),
{
    let score: u32 = match you {
        'A' => match other {
            'A' => 3,
            'B' => 0,
            'C' => 6,
            _ => return Err(Error::InvalidArgument(char_to_string(*other))),
        },
        'B' => match other {
            'A' => 6,
            'B' => 3,
            'C' => 0,
            _ => return Err(Error::InvalidArgument(char_to_string(*other))),
        },
        'C' => match other {
            'A' => 0,
            'B' => 6,
            'C' => 3,
            _ => return Err(Error::InvalidArgument(char_to_string(*other))),
        },
        _ => return Err(Error::InvalidArgument(char_to_string(*you))),
    };
    Ok(score)
}

/// The first reading of the guide: `X`, `Y` and `Z` are rock, paper and
/// scissors.
pub open spec fn part1_spec(you_secret: char) -> char {
    if you_secret == 'X' { 'A' } else if you_secret == 'Y' { 'B' } else { 'C' }
}

/// Translates a secret letter by the first reading.
pub fn part1(you_secret: &char, _other: &char) -> (r: char)
    requires
        *you_secret == 'X' || *you_secret == 'Y' || *you_secret == 'Z',
    ensures
        r == part1_spec(*you_secret),
{
    match you_secret {
        'X' => 'A',
        'Y' => 'B',
        _ => 'C',
    }
}

/// The shape that `part2` picks: the one that loses to `other` (`X`), draws
/// (`Y`) or wins (`Z`).
pub open spec fn part2_spec(you_secret: char, other: char) -> char {
    if you_secret == 'Y' {
        other
    } else if you_secret == 'X' {
        if other == 'A' { 'C' } else if other == 'B' { 'A' } else { 'B' }
    } else {
        if other == 'A' { 'B' } else if other == 'B' { 'C' } else { 'A' }
    }
}

/// The inputs that `part2` accepts: `Y` with anything, `X` or `Z` with a shape.
pub open spec fn part2_accepts(you_secret: char, other: char) -> bool {
    you_secret == 'Y' || ((you_secret == 'X' || you_secret == 'Z') && is_play(other))
}

/// Translates a secret letter by the second reading: the letter says
/// whether to lose, draw or win against `other`.
pub fn part2(you_secret: &char, other: &char) -> (r: char)
    requires
        part2_accepts(*you_secret, *other),
    ensures
        r == part2_spec(*you_secret, *other),
{
    match you_secret {
        'X' => match other {
            'A' => 'C',
            'B' => 'A',
            _ => 'B',
        },
        'Y' => *other,
        _ => match other {
            'A' => 'B',
            'B' => 'C',
            _ => 'A',
        },
    }
}

/// The shape score: 1 for rock, 2 for paper, 3 for scissors.
pub open spec fn shape_score(you: char) -> u32 {
    if you == 'A' { 1 } else if you == 'B' { 2 } else { 3 }
}

/// Shape scores follow the order in which the shapes beat each other:
/// rock scores 1, and the shape that beats a shape scores one more than it,
/// wrapping from scissors back to rock; a draw is the same shape, and every
/// shape scores from 1 to 3.
pub proof fn lemma_shape_scores(you: char, other: char)
    requires
        is_play(you),
        is_play(other),
    ensures
        shape_score('A') == 1,
        1 <= shape_score(you) <= 3,
        outcome(you, other) == 6 <==> shape_score(you) == shape_score(other) % 3 + 1,
        outcome(you, other) == 3 <==> you == other,
        outcome(you, other) == 0 <==> shape_score(other) == shape_score(you) % 3 + 1,
{
}

/// Under the first reading, `X`, `Y` and `Z` name the shapes in the order
/// of their scores: the shape score is the letter's place after `W`.
pub proof fn lemma_first_reading(secret: char)
    requires
        secret == 'X' || secret == 'Y' || secret == 'Z',
    ensures
        shape_score(part1_spec(secret)) == (secret as int) - ('W' as int),
        is_play(part1_spec(secret)),
{
}

/// The shape played in a round `(other, you_secret)` under the chosen reading.
pub open spec fn translated(use_part2: bool, m: (char, char)) -> char {
    if use_part2 { part2_spec(m.1, m.0) } else { part1_spec(m.1) }
}

/// The score of one round, or the character that makes it invalid.
pub open spec fn round_spec(use_part2: bool, m: (char, char)) -> Result<int, char> {
    let you = translated(use_part2, m);
    if !is_play(you) {
        Err(you)
    } else if !is_play(m.0) {
        Err(m.0)
    } else {
        Ok(shape_score(you) + outcome(you, m.0))
    }
}

/// The total of the first `n` rounds, or the first invalid character.
pub open spec fn total_spec(use_part2: bool, matches: Seq<(char, char)>, n: nat) -> Result<int, char>
    decreases n,
{
    if n == 0 {
        Ok(0)
    } else {
        match total_spec(use_part2, matches, (n - 1) as nat) {
            Ok(t) => match round_spec(use_part2, matches[n - 1]) {
                Ok(s) => Ok(t + s),
                Err(c) => Err(c),
            },
            Err(c) => Err(c),
        }
    }
}

/// The secret letters of every round are ones that the chosen reading
/// accepts.
pub open spec fn readable(use_part2: bool, matches: Seq<(char, char)>) -> bool {
    forall|k: int| 0 <= k < matches.len() ==> if use_part2 {
        part2_accepts((#[trigger] matches[k]).1, matches[k].0)
    } else {
        let ys = (#[trigger] matches[k]).1;
        ys == 'X' || ys == 'Y' || ys == 'Z'
    }
}

/// The total score of the rounds `(other, you_secret)`, reading the secret
/// letters as the first or, when `use_part2`, the second reading says.
pub fn score(matches: &Vec<(char, char)>, use_part2: bool) -> (r: Result<u32, Error>)
    requires
        readable(use_part2, matches@),
        matches@.len() * 9 <= u32::MAX,
    ensures
        total_spec(use_part2, matches@, matches@.len()) matches Ok(t) ==> r matches Ok(v) && v == t,
        total_spec(use_part2, matches@, matches@.len()) matches Err(c) ==> (r matches Err(Error::InvalidArgument(s))
            && s@ == seq![c]),
{
    let mut total: u32 = 0;
    let n = matches.len();
    for i in 0..n
        invariant
            n == matches@.len(),
            n * 9 <= u32::MAX,
            readable(use_part2, matches@),
            total_spec(use_part2, matches@, i as nat) == Ok::<int, char>(total as int),
            total <= i * 9,
    {
        let (other, you_secret) = matches[i];
        proof {
            assert(matches@[i as int] == (other, you_secret));
        }
        let you = if use_part2 { part2(&you_secret, &other) } else { part1(&you_secret, &other) };
        let shape: u32 = match you {
            'A' => 1,
            'B' => 2,
            'C' => 3,
            _ => {
                proof {
                    lemma_error_stays(use_part2, matches@, (i + 1) as nat, n as nat, you);
                }
                return Err(Error::InvalidArgument(char_to_string(you)));
            },
        };
        let winner = match beats(&you, &other) {
            Ok(w) => w,
            Err(e) => {
                proof {
                    lemma_error_stays(use_part2, matches@, (i + 1) as nat, n as nat, other);
                }
                return Err(e);
            },
        };
        total = total + winner + shape;
    }
    Ok(total)
}

/// A round line: a one-byte character, a space, a one-byte character.
pub open spec fn is_round_line(s: Seq<char>) -> bool {
    s.len() == 3 && s[1] == ' ' && (s[0] as u32) < 128 && (s[2] as u32) < 128
}

/// The rounds that the non-blank lines among the first `n` describe, or the
/// first malformed line.
pub open spec fn rounds_spec(lines: Seq<Seq<char>>, n: nat) -> Result<Seq<(char, char)>, Seq<char>>
    decreases n,
{
    if n == 0 {
        Ok(Seq::empty())
    } else {
        match rounds_spec(lines, (n - 1) as nat) {
            Ok(v) => {
                let l = lines[n - 1];
                if l.len() == 0 {
                    Ok(v)
                } else if is_round_line(l) {
                    Ok(v.push((l[0], l[2])))
                } else {
                    Err(l)
                }
            },
            Err(e) => Err(e),
        }
    }
}

proof fn lemma_rounds_error_stays(lines: Seq<Seq<char>>, m: nat, n: nat, e: Seq<char>)
    requires
        m <= n,
        rounds_spec(lines, m) == Err::<Seq<(char, char)>, Seq<char>>(e),
    ensures
        rounds_spec(lines, n) == Err::<Seq<(char, char)>, Seq<char>>(e),
    decreases n - m,
{
    if m < n {
        lemma_rounds_error_stays(lines, m, (n - 1) as nat, e);
    }
}

/// Reads the rounds from the trimmed input lines, skipping blank ones.
///
/// Each other line must be a one-byte character, a space and a one-byte
/// character; the first line that is not fails the whole input.
pub fn parse_rounds(lines: &Vec<String>) -> (r: Result<Vec<(char, char)>, Error>)
    ensures
        rounds_spec(string_views(lines@), lines@.len()) matches Ok(v) ==> r matches Ok(w) && w@ == v,
        rounds_spec(string_views(lines@), lines@.len()) matches Err(l) ==> (r matches Err(Error::InvalidArgument(s))
            && s@ == l),
{
    let ghost views = string_views(lines@);
    let mut v: Vec<(char, char)> = Vec::new();
    let n = lines.len();
    for i in 0..n
        invariant
            n == lines@.len(),
            views == string_views(lines@),
            rounds_spec(views, i as nat) == Ok::<Seq<(char, char)>, Seq<char>>(v@),
    {
        let line = lines[i].as_str();
        proof {
            assert(views[i as int] == line@);
        }
        let len = line.unicode_len();
        if len != 0 {
            if len != 3 || line.get_char(1) != ' ' || (line.get_char(0) as u32) >= 128 || (line.get_char(2) as u32) >= 128 {
                proof {
                    lemma_rounds_error_stays(views, (i + 1) as nat, n as nat, line@);
                }
                return Err(Error::InvalidArgument(line.to_owned()));
            }
            v.push((line.get_char(0), line.get_char(2)));
        }
    }
    Ok(v)
}

/// A win for one player is a loss for the other, and a draw for both.
pub proof fn outcomes_are_complementary(a: char, b: char)
    requires
        is_play(a),
        is_play(b),
    ensures
        outcome(a, b) + outcome(b, a) == 6,
{
}

/// The second reading picks a shape that reaches the outcome its letter
/// names: `X` loses, `Y` draws, `Z` wins.
pub proof fn part2_reaches_named_outcome(you_secret: char, other: char)
    requires
        you_secret == 'X' || you_secret == 'Y' || you_secret == 'Z',
        is_play(other),
    ensures
        is_play(part2_spec(you_secret, other)),
        outcome(part2_spec(you_secret, other), other) == (if you_secret == 'X' { 0u32 } else if you_secret
            == 'Y' { 3u32 } else { 6u32 }),
{
}

/// Once a round fails, the total fails with the same character.
proof fn lemma_error_stays(use_part2: bool, matches: Seq<(char, char)>, m: nat, n: nat, c: char)
    requires
        m <= n,
        total_spec(use_part2, matches, m) == Err::<int, char>(c),
    ensures
        total_spec(use_part2, matches, n) == Err::<int, char>(c),
    decreases n - m,
{
    if m < n {
        lemma_error_stays(use_part2, matches, m, (n - 1) as nat, c);
    }
}

} // verus!
