//! Supply stacks: crates moved one at a time between stacks by
//! `move N from S to D` instructions.
use vstd::prelude::*;
use crate::common::string_views;
use crate::text::{find_char, find_spec, nonblank, nonblank_lines, parse_int, parse_u32, parse_usize, string_pop, string_push, strip_prefix, views_of};

verus! {

/// Errors of this puzzle.
pub enum Error {
    /// An expected piece of text is missing from the given text.
    Missing(String),
    /// The given text is not a number.
    InvalidNumber(String),
    /// A move names a stack that does not exist.
    InvalidMove { src: usize, dst: usize },
    /// A move takes a crate from an empty stack.
    EmptyStack,
}

/// The text that follows the prefix `p` in `s`, if `s` starts with it.
pub open spec fn after(s: Seq<char>, p: Seq<char>) -> Option<Seq<char>> {
    if p.len() <= s.len() && s.take(p.len() as int) == p { Some(s.skip(p.len() as int)) } else { None }
}

/// How parsing a move fails: whether it is a bad number, and the text named.
pub struct ParseFailure {
    pub is_number: bool,
    pub text: Seq<char>,
}

/// What an instruction line says: amount, source and destination; or why it
/// does not parse.
pub open spec fn move_spec(l: Seq<char>) -> Result<(int, int, int), ParseFailure> {
    match after(l, "move "@) {
        None => Err(ParseFailure { is_number: false, text: l }),
        Some(s1) => match find_spec(s1, ' ') {
            None => Err(ParseFailure { is_number: false, text: s1 }),
            Some(i) => match parse_int(s1.take(i), false, 0, u32::MAX as int) {
                None => Err(ParseFailure { is_number: true, text: s1.take(i) }),
                Some(amount) => match after(s1.skip(i), " from "@) {
                    None => Err(ParseFailure { is_number: false, text: s1.skip(i) }),
                    Some(s2) => match find_spec(s2, ' ') {
                        None => Err(ParseFailure { is_number: false, text: s2 }),
                        Some(j) => match parse_int(s2.take(j), false, 0, usize::MAX as int) {
                            None => Err(ParseFailure { is_number: true, text: s2.skip(j) }),
                            Some(src) => match after(s2.skip(j), " to "@) {
                                None => Err(ParseFailure { is_number: false, text: s2.skip(j) }),
                                Some(s3) => match parse_int(s3, false, 0, usize::MAX as int) {
                                    None => Err(ParseFailure { is_number: true, text: s3 }),
                                    Some(dst) => Ok((amount, src, dst)),
                                },
                            },
                        },
                    },
                },
            },
        },
    }
}

/// The error that a parse failure is reported as.
pub open spec fn reports(e: Error, f: ParseFailure) -> bool {
    if f.is_number {
        e matches Error::InvalidNumber(t) && t@ == f.text
    } else {
        e matches Error::Missing(t) && t@ == f.text
    }
}

/// Parses `move N from S to D` into `(N, S, D)`.
pub fn parse_move(line: &str) -> (r: Result<(u32, usize, usize), Error>)
    ensures
        move_spec(line@) matches Ok((a, s, d)) ==> r matches Ok((a2, s2, d2)) && a2 == a && s2 == s && d2 == d,
        move_spec(line@) matches Err(f) ==> (r matches Err(e) && reports(e, f)),
{
    let s1 = match strip_prefix(line, "move ") {
        Some(s) => s,
        None => return Err(Error::Missing(line.to_owned())),
    };
    let space = match find_char(s1, ' ') {
        Some(i) => i,
        None => return Err(Error::Missing(s1.to_owned())),
    };
    let n1 = s1.unicode_len();
    let amount_str = s1.substring_char(0, space);
    let rest = s1.substring_char(space, n1);
    let amount = match parse_u32(amount_str) {
        Some(a) => a,
        None => return Err(Error::InvalidNumber(amount_str.to_owned())),
    };
    let s2 = match strip_prefix(rest, " from ") {
        Some(s) => s,
        None => return Err(Error::Missing(rest.to_owned())),
    };
    let space = match find_char(s2, ' ') {
        Some(i) => i,
        None => return Err(Error::Missing(s2.to_owned())),
    };
    let n2 = s2.unicode_len();
    let src_str = s2.substring_char(0, space);
    let rest = s2.substring_char(space, n2);
    let src = match parse_usize(src_str) {
        Some(v) => v,
        None => return Err(Error::InvalidNumber(rest.to_owned())),
    };
    let dst_str = match strip_prefix(rest, " to ") {
        Some(s) => s,
        None => return Err(Error::Missing(rest.to_owned())),
    };
    let dst = match parse_usize(dst_str) {
        Some(v) => v,
        None => return Err(Error::InvalidNumber(dst_str.to_owned())),
    };
    Ok((amount, src, dst))
}

/// Moves the top crate of stack `src` onto stack `dst`.
pub open spec fn move_one(st: Seq<Seq<char>>, src: int, dst: int) -> Seq<Seq<char>> {
    let c = st[src].last();
    let st1 = st.update(src, st[src].drop_last());
    st1.update(dst, st1[dst].push(c))
}

/// The stacks after `n` single-crate moves from `src` to `dst`, and whether
/// all of them found a crate to move.
pub open spec fn move_n(st: Seq<Seq<char>>, src: int, dst: int, n: nat) -> (Seq<Seq<char>>, bool)
    decreases n,
{
    if n == 0 {
        (st, true)
    } else {
        let prev = move_n(st, src, dst, (n - 1) as nat);
        if !prev.1 || prev.0[src].len() == 0 {
            (prev.0, false)
        } else {
            (move_one(prev.0, src, dst), true)
        }
    }
}

proof fn lemma_move_n_fail_stays(st: Seq<Seq<char>>, src: int, dst: int, m: nat, n: nat)
    requires
        m <= n,
        !move_n(st, src, dst, m).1,
    ensures
        !move_n(st, src, dst, n).1,
        move_n(st, src, dst, n).0 == move_n(st, src, dst, m).0,
    decreases n - m,
{
    if m < n {
        lemma_move_n_fail_stays(st, src, dst, m, (n - 1) as nat);
    }
}

proof fn lemma_move_n_len(st: Seq<Seq<char>>, src: int, dst: int, n: nat)
    requires
        0 <= src < st.len(),
        0 <= dst < st.len(),
    ensures
        move_n(st, src, dst, n).0.len() == st.len(),
    decreases n,
{
    if n > 0 {
        lemma_move_n_len(st, src, dst, (n - 1) as nat);
    }
}

/// Carries out `move amount from src to dst`, one crate at a time.
///
/// Fails with `InvalidMove` when a stack index is out of range (nothing
/// moves), and with `EmptyStack` when the source runs out of crates (the
/// crates moved until then stay moved).
pub fn apply_move(stacks: &mut Vec<String>, amount: u32, src: usize, dst: usize) -> (r: Result<(), Error>)
    ensures
        (src >= old(stacks)@.len() || dst >= old(stacks)@.len()) ==> (r matches Err(Error::InvalidMove { src: s, dst: d })
            && s == src && d == dst && final(stacks)@ == old(stacks)@),
        src < old(stacks)@.len() && dst < old(stacks)@.len() ==> ({
            let res = move_n(string_views(old(stacks)@), src as int, dst as int, amount as nat);
            &&& string_views(final(stacks)@) == res.0
            &&& res.1 ==> r is Ok
            &&& !res.1 ==> r matches Err(Error::EmptyStack)
        }),
{
    if src >= stacks.len() || dst >= stacks.len() {
        return Err(Error::InvalidMove { src, dst });
    }
    let ghost start = string_views(stacks@);
    let mut k: u32 = 0;
    while k < amount
        invariant
            k <= amount,
            src < stacks@.len(),
            dst < stacks@.len(),
            start.len() == stacks@.len(),
            start == string_views(old(stacks)@),
            old(stacks)@.len() == stacks@.len(),
            move_n(start, src as int, dst as int, k as nat) == (string_views(stacks@), true),
        decreases amount - k,
    {
        let ghost before = string_views(stacks@);
        let item = match string_pop(&mut stacks[src]) {
            Some(c) => c,
            None => {
                proof {
                    assert(before[src as int] == stacks@[src as int]@);
                    assert(move_n(start, src as int, dst as int, (k + 1) as nat).0 == before);
                    lemma_move_n_fail_stays(start, src as int, dst as int, (k + 1) as nat, amount as nat);
                    assert(string_views(stacks@) =~= before);
                }
                return Err(Error::EmptyStack);
            },
        };
        string_push(&mut stacks[dst], item);
        proof {
            assert(string_views(stacks@) =~= move_one(before, src as int, dst as int));
        }
        k = k + 1;
    }
    Ok(())
}

/// The stacks after the instructions on the first `n` lines, and whether
/// all of them were carried out: the first that fails to parse or to apply
/// ends the run, leaving the stacks as it left them (a move that runs out
/// of crates keeps the crates it moved).
pub open spec fn run_spec(st: Seq<Seq<char>>, lines: Seq<Seq<char>>, n: nat) -> (Seq<Seq<char>>, bool)
    decreases n,
{
    if n == 0 {
        (st, true)
    } else {
        let (cur, ok) = run_spec(st, lines, (n - 1) as nat);
        if !ok {
            (cur, false)
        } else {
            match move_spec(lines[n - 1]) {
                Err(_) => (cur, false),
                Ok((a, s, d)) => if s >= cur.len() || d >= cur.len() {
                    (cur, false)
                } else {
                    move_n(cur, s, d, a as nat)
                },
            }
        }
    }
}

proof fn lemma_run_fail_stays(st: Seq<Seq<char>>, lines: Seq<Seq<char>>, m: nat, n: nat)
    requires
        m <= n,
        !run_spec(st, lines, m).1,
    ensures
        run_spec(st, lines, n) == run_spec(st, lines, m),
    decreases n - m,
{
    if m < n {
        lemma_run_fail_stays(st, lines, m, (n - 1) as nat);
    }
}

/// Trims every line, skips the blank ones, and carries out the instruction
/// on each of the others, in order, stopping at the first that fails to
/// parse or to apply; the moves made until then stay made.
pub fn process_instructions(stacks: &mut Vec<String>, lines: &Vec<String>) -> (r: Result<(), Error>)
    ensures
        ({
            let ls = nonblank(string_views(lines@));
            &&& string_views(final(stacks)@) == run_spec(string_views(old(stacks)@), ls, ls.len()).0
            &&& (r is Ok <==> run_spec(string_views(old(stacks)@), ls, ls.len()).1)
        }),
{
    let ls = nonblank_lines(lines);
    let ghost start = string_views(stacks@);
    let ghost views = string_views(ls@);
    proof {
        assert(string_views(lines@) =~= views_of(lines@));
        assert(views =~= views_of(ls@));
        assert(views == nonblank(string_views(lines@)));
    }
    let n = ls.len();
    for i in 0..n
        invariant
            n == ls@.len(),
            views == string_views(ls@),
            views == nonblank(string_views(lines@)),
            start == string_views(old(stacks)@),
            run_spec(start, views, i as nat) == (string_views(stacks@), true),
    {
        let line = ls[i].as_str();
        proof {
            assert(views[i as int] == line@);
        }
        let (amount, src, dst) = match parse_move(line) {
            Ok(m) => m,
            Err(e) => {
                proof {
                    lemma_run_fail_stays(start, views, (i + 1) as nat, n as nat);
                }
                return Err(e);
            },
        };
        let ghost cur = string_views(stacks@);
        match apply_move(stacks, amount, src, dst) {
            Ok(()) => {},
            Err(e) => {
                proof {
                    assert(!run_spec(start, views, (i + 1) as nat).1);
                    assert(run_spec(start, views, (i + 1) as nat).0 == string_views(stacks@));
                    lemma_run_fail_stays(start, views, (i + 1) as nat, n as nat);
                }
                return Err(e);
            },
        }
    }
    Ok(())
}

/// The top crate of every non-empty stack, in stack order.
pub open spec fn tops(st: Seq<Seq<char>>) -> Seq<char>
    decreases st.len(),
{
    if st.len() == 0 {
        Seq::empty()
    } else if st.last().len() == 0 {
        tops(st.drop_last())
    } else {
        tops(st.drop_last()).push(st.last().last())
    }
}

/// The crates on top of the non-empty stacks.
pub fn top_crates(stacks: &Vec<String>) -> (r: String)
    ensures
        r@ == tops(string_views(stacks@)),
{
    let ghost views = string_views(stacks@);
    let mut out = String::new();
    let n = stacks.len();
    for i in 0..n
        invariant
            n == stacks@.len(),
            views == string_views(stacks@),
            out@ == tops(views.take(i as int)),
    {
        let s = stacks[i].as_str();
        let len = s.unicode_len();
        proof {
            assert(views.take(i + 1).drop_last() =~= views.take(i as int));
            assert(views.take(i + 1).last() == s@);
        }
        if len > 0 {
            string_push(&mut out, s.get_char(len - 1));
        }
    }
    proof {
        assert(views.take(n as int) =~= views);
    }
    out
}

/// The starting stacks of the puzzle input; stack 0 is an unused empty
/// stack so that the others are numbered from 1.
pub fn initial_stacks() -> (r: Vec<String>)
    ensures
        string_views(r@) == seq!["", "WMLF", "BZVMF", "HVRSLQ", "FSVQPMTJ", "LSW", "FVPMRJW", "JQCPNRF", "VHPSZWRB",
            "BMJCGHZW"].map_values(|s: &str| s@),
{
    let mut stacks: Vec<String> = Vec::new();
    stacks.push("".to_owned());
    stacks.push("WMLF".to_owned());
    stacks.push("BZVMF".to_owned());
    stacks.push("HVRSLQ".to_owned());
    stacks.push("FSVQPMTJ".to_owned());
    stacks.push("LSW".to_owned());
    stacks.push("FVPMRJW".to_owned());
    stacks.push("JQCPNRF".to_owned());
    stacks.push("VHPSZWRB".to_owned());
    stacks.push("BMJCGHZW".to_owned());
    proof {
        assert(string_views(stacks@) =~= seq!["", "WMLF", "BZVMF", "HVRSLQ", "FSVQPMTJ", "LSW", "FVPMRJW", "JQCPNRF",
            "VHPSZWRB", "BMJCGHZW"].map_values(|s: &str| s@));
    }
    stacks
}

} // verus!
