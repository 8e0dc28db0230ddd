//! Monkey math: each monkey yells a number or the result of an operation on
//! two other monkeys' numbers.
use vstd::prelude::*;
use crate::text::{nonblank, nonblank_lines, views_of, str_equal, find_char, find_spec, i64_to_string, parse_i64, parse_int, trim, trimmed, decimal_string};

verus! {

/// Errors of this puzzle.
#[derive(Debug)]
pub enum Error {
    /// A line without a colon; the text is the line.
    InvalidLine(String),
    /// A job that is neither an operation nor a number; the text is the job.
    BadNumber(String),
    /// No monkey of that name.
    NotFound(String),
    /// The way to the human reached a monkey that yells a number.
    FoundNumber,
    /// Neither operand of a monkey depends on the human.
    NoHuman,
    /// Both operands of a monkey depend on the human.
    HumanTwice,
}

/// A monkey's job: a number, or an operation on two named monkeys.
#[derive(Debug)]
pub enum Op {
    Number(i64),
    Add(String, String),
    Subtract(String, String),
    Multiply(String, String),
    Divide(String, String),
}

/// The two operands around the first `op` in `s`, trimmed.
pub open spec fn binary_spec(s: Seq<char>, op: char) -> Option<(Seq<char>, Seq<char>)> {
    match find_spec(s, op) {
        None => None,
        Some(p) => Some((trimmed(s.take(p)), trimmed(s.skip(p + 1)))),
    }
}

/// A job as plain values: which operation (0 number, 1 add, 2 subtract,
/// 3 multiply, 4 divide), the number, and the operands.
pub struct JobView {
    pub kind: int,
    pub number: int,
    pub left: Seq<char>,
    pub right: Seq<char>,
}

/// The contents of a job.
pub open spec fn job_view(op: Op) -> JobView {
    match op {
        Op::Number(n) => JobView { kind: 0, number: n as int, left: Seq::empty(), right: Seq::empty() },
        Op::Add(a, b) => JobView { kind: 1, number: 0, left: a@, right: b@ },
        Op::Subtract(a, b) => JobView { kind: 2, number: 0, left: a@, right: b@ },
        Op::Multiply(a, b) => JobView { kind: 3, number: 0, left: a@, right: b@ },
        Op::Divide(a, b) => JobView { kind: 4, number: 0, left: a@, right: b@ },
    }
}

/// What a job text means: the first of `+`, `-`, `*`, `/` that occurs in it
/// (tried in that order) splits it into two operands; otherwise it must be a
/// decimal `i64`.
pub open spec fn job_spec(s: Seq<char>) -> Option<JobView> {
    match binary_spec(s, '+') {
        Some((a, b)) => Some(JobView { kind: 1, number: 0, left: a, right: b }),
        None => match binary_spec(s, '-') {
            Some((a, b)) => Some(JobView { kind: 2, number: 0, left: a, right: b }),
            None => match binary_spec(s, '*') {
                Some((a, b)) => Some(JobView { kind: 3, number: 0, left: a, right: b }),
                None => match binary_spec(s, '/') {
                    Some((a, b)) => Some(JobView { kind: 4, number: 0, left: a, right: b }),
                    None => match parse_int(s, true, i64::MIN as int, i64::MAX as int) {
                        Some(n) => Some(JobView { kind: 0, number: n, left: Seq::empty(), right: Seq::empty() }),
                        None => None,
                    },
                },
            },
        },
    }
}

impl Op {
    /// Splits `s` at the first `op` into its two trimmed operands.
    pub fn parse_binary_op(s: &str, op: char) -> (r: Result<Option<(String, String)>, Error>)
        ensures
            binary_spec(s@, op) is None ==> r matches Ok(None),
            binary_spec(s@, op) matches Some((a, b)) ==> r matches Ok(Some((x, y))) && x@ == a && y@ == b,
    {
        match find_char(s, op) {
            Some(p) => {
                let n = s.unicode_len();
                let s1 = trim(s.substring_char(0, p));
                let s2 = trim(s.substring_char(p + 1, n));
                Ok(Some((s1.to_owned(), s2.to_owned())))
            },
            None => Ok(None),
        }
    }

    /// Parses a job.
    pub fn from_str(s: &str) -> (r: Result<Op, Error>)
        ensures
            job_spec(s@) matches Some(j) ==> r matches Ok(op) && job_view(op) == j,
            job_spec(s@) is None ==> (r matches Err(Error::BadNumber(t)) && t@ == s@),
    {
        if let Some((s1, s2)) = Op::parse_binary_op(s, '+')? {
            Ok(Op::Add(s1, s2))
        } else if let Some((s1, s2)) = Op::parse_binary_op(s, '-')? {
            Ok(Op::Subtract(s1, s2))
        } else if let Some((s1, s2)) = Op::parse_binary_op(s, '*')? {
            Ok(Op::Multiply(s1, s2))
        } else if let Some((s1, s2)) = Op::parse_binary_op(s, '/')? {
            Ok(Op::Divide(s1, s2))
        } else {
            match parse_i64(s) {
                Some(n) => Ok(Op::Number(n)),
                None => Err(Error::BadNumber(s.to_owned())),
            }
        }
    }

    /// The job written out: the number, or `a + b` (and so on).
    pub fn to_string(&self) -> (r: String)
        ensures
            r@ == match *self {
                Op::Number(n) => decimal_string(n as int),
                Op::Add(a, b) => a@ + " + "@ + b@,
                Op::Subtract(a, b) => a@ + " - "@ + b@,
                Op::Multiply(a, b) => a@ + " * "@ + b@,
                Op::Divide(a, b) => a@ + " / "@ + b@,
            },
    {
        match self {
            Op::Number(n) => i64_to_string(*n),
            Op::Add(a, b) => a.clone().concat(" + ").concat(b.as_str()),
            Op::Subtract(a, b) => a.clone().concat(" - ").concat(b.as_str()),
            Op::Multiply(a, b) => a.clone().concat(" * ").concat(b.as_str()),
            Op::Divide(a, b) => a.clone().concat(" / ").concat(b.as_str()),
        }
    }
}

/// What a line means: the trimmed name before the first colon and the job
/// after it (trimmed).
pub open spec fn line_spec(s: Seq<char>) -> Option<(Seq<char>, Option<JobView>)> {
    match find_spec(s, ':') {
        None => None,
        Some(p) => Some((trimmed(s.take(p)), job_spec(trimmed(s.skip(p + 1))))),
    }
}

/// Parses `name: job`.
pub fn parse_line(s: &str) -> (r: Result<(String, Op), Error>)
    ensures
        line_spec(s@) is None ==> (r matches Err(Error::InvalidLine(t)) && t@ == s@),
        line_spec(s@) matches Some((name, Some(j))) ==> (r matches Ok((n, op)) && n@ == name && job_view(op) == j),
        line_spec(s@) matches Some((name, None)) ==> (r matches Err(Error::BadNumber(t))
            && t@ == trimmed(s@.skip(find_spec(s@, ':')->0 + 1))),
{
    match find_char(s, ':') {
        Some(p) => {
            let n = s.unicode_len();
            let s1 = trim(s.substring_char(0, p));
            let s2 = trim(s.substring_char(p + 1, n));
            let op = Op::from_str(s2)?;
            Ok((s1.to_owned(), op))
        },
        None => Err(Error::InvalidLine(s.to_owned())),
    }
}

/// The monkeys' jobs, by name; where two share a name, the later counts.
pub struct Jobs {
    pub entries: Vec<(String, Op)>,
}

/// The jobs by name.
pub open spec fn job_map(es: Seq<(String, Op)>) -> Map<Seq<char>, Op>
    decreases es.len(),
{
    if es.len() == 0 {
        Map::empty()
    } else {
        job_map(es.drop_last()).insert(es.last().0@, es.last().1)
    }
}

impl Jobs {
    pub open spec fn view(&self) -> Map<Seq<char>, Op> {
        job_map(self.entries@)
    }

    /// No jobs.
    pub fn new() -> (r: Jobs)
        ensures
            r@ == Map::<Seq<char>, Op>::empty(),
            r.entries@.len() == 0,
    {
        Jobs { entries: Vec::new() }
    }

    /// Gives a monkey a job, replacing any it had.
    pub fn insert(&mut self, name: String, op: Op)
        ensures
            final(self)@ == old(self)@.insert(name@, op),
    {
        let ghost before = self.entries@;
        self.entries.push((name, op));
        assert(self.entries@.drop_last() =~= before);
    }

    /// The job of a monkey.
    pub fn get(&self, name: &str) -> (r: Option<&Op>)
        ensures
            r matches Some(op) ==> self@.contains_key(name@) && *op == self@[name@],
            r is None ==> !self@.contains_key(name@),
    {
        let n = self.entries.len();
        let mut k: usize = n;
        while k > 0
            invariant
                n == self.entries.len(),
                k <= n,
                forall|j: int| k <= j < n ==> (#[trigger] self.entries@[j]).0@ != name@,
            decreases k,
        {
            if str_equal(self.entries[k - 1].0.as_str(), name) {
                proof {
                    lemma_job_last(self.entries@, k - 1, name@);
                }
                return Some(&self.entries[k - 1].1);
            }
            k = k - 1;
        }
        proof {
            lemma_job_none(self.entries@, name@);
        }
        None
    }
}

proof fn lemma_job_last(es: Seq<(String, Op)>, i: int, name: Seq<char>)
    requires
        0 <= i < es.len(),
        es[i].0@ == name,
        forall|j: int| i < j < es.len() ==> (#[trigger] es[j]).0@ != name,
    ensures
        job_map(es).contains_key(name),
        job_map(es)[name] == es[i].1,
    decreases es.len(),
{
    if i < es.len() - 1 {
        lemma_job_last(es.drop_last(), i, name);
    }
}

proof fn lemma_job_none(es: Seq<(String, Op)>, name: Seq<char>)
    requires
        forall|j: int| 0 <= j < es.len() ==> (#[trigger] es[j]).0@ != name,
    ensures
        !job_map(es).contains_key(name),
    decreases es.len(),
{
    if es.len() > 0 {
        lemma_job_none(es.drop_last(), name);
    }
}

/// Rust's `/` on `i64`: the quotient rounded toward zero.
pub open spec fn trunc_div(a: i64, b: i64) -> i64 {
    if a >= 0 {
        (a / b) as i64
    } else {
        (-((-a) / (b as int))) as i64
    }
}

/// The result of an operation (1 add, 2 subtract, 3 multiply, 4 divide)
/// on two `i64`s, or `None` where it overflows or divides by zero.
pub open spec fn arith(kind: int, a: i64, b: i64) -> Option<i64> {
    let v: int = if kind == 1 {
        a + b
    } else if kind == 2 {
        a - b
    } else if kind == 3 {
        a * b
    } else {
        0
    };
    if kind == 4 {
        if b == 0 || (a == i64::MIN && b == -1) {
            None
        } else {
            Some(trunc_div(a, b))
        }
    } else if i64::MIN <= v <= i64::MAX {
        Some(v as i64)
    } else {
        None
    }
}

/// Applies an operation on two `i64`s.
fn apply_op(kind: u8, a: i64, b: i64) -> (r: i64)
    requires
        1 <= kind <= 4,
        arith(kind as int, a, b) is Some,
    ensures
        arith(kind as int, a, b) == Some(r),
{
    if kind == 1 {
        a + b
    } else if kind == 2 {
        a - b
    } else if kind == 3 {
        a * b
    } else {
        a / b
    }
}

/// The operands and operation number of a job, or the number it yells.
pub open spec fn op_parts(op: Op) -> (int, Seq<char>, Seq<char>) {
    (job_view(op).kind, job_view(op).left, job_view(op).right)
}

/// What monkey `s` yells, following jobs at most `depth` deep; `None`
/// where a monkey is missing, the jobs go deeper, or the arithmetic fails.
pub open spec fn eval(m: Map<Seq<char>, Op>, s: Seq<char>, depth: nat) -> Option<i64>
    decreases depth,
{
    if depth == 0 || !m.contains_key(s) {
        None
    } else {
        match m[s] {
            Op::Number(n) => Some(n),
            op => {
                let (kind, x, y) = op_parts(op);
                match eval(m, x, (depth - 1) as nat) {
                    None => None,
                    Some(a) => match eval(m, y, (depth - 1) as nat) {
                        None => None,
                        Some(b) => arith(kind, a, b),
                    },
                }
            },
        }
    }
}

/// The operation number and operands of a job that is not a number.
fn split_op(op: &Op) -> (r: (u8, &str, &str))
    requires
        !(op is Number),
    ensures
        r.0 as int == op_parts(*op).0,
        r.1@ == op_parts(*op).1,
        r.2@ == op_parts(*op).2,
        1 <= r.0 <= 4,
{
    match op {
        Op::Add(x, y) => (1, x.as_str(), y.as_str()),
        Op::Subtract(x, y) => (2, x.as_str(), y.as_str()),
        Op::Multiply(x, y) => (3, x.as_str(), y.as_str()),
        Op::Divide(x, y) => (4, x.as_str(), y.as_str()),
        Op::Number(_) => (1, "", ""),
    }
}

/// What monkey `s` yells, following jobs at most `depth` deep.
pub fn compute(m: &Jobs, s: &str, depth: u64) -> (r: i64)
    requires
        eval(m@, s@, depth as nat) is Some,
    ensures
        eval(m@, s@, depth as nat) == Some(r),
    decreases depth,
{
    match m.get(s) {
        None => 0,
        Some(op) => match op {
            Op::Number(n) => *n,
            _ => {
                let (kind, x, y) = split_op(op);
                let a = compute(m, x, depth - 1);
                let b = compute(m, y, depth - 1);
                apply_op(kind, a, b)
            },
        },
    }
}

/// The human's name.
pub open spec fn human() -> Seq<char> {
    seq!['h', 'u', 'm', 'n']
}

/// What monkey `s` yells when the human's number is unknown: `Some(None)`
/// when it depends on the human, `None` where the evaluation fails. The
/// second operand is not looked at when the first depends on the human.
pub open spec fn eval2(m: Map<Seq<char>, Op>, s: Seq<char>, depth: nat) -> Option<Option<i64>>
    decreases depth,
{
    if s == human() {
        Some(None)
    } else if depth == 0 || !m.contains_key(s) {
        None
    } else {
        match m[s] {
            Op::Number(n) => Some(Some(n)),
            op => {
                let (kind, x, y) = op_parts(op);
                match eval2(m, x, (depth - 1) as nat) {
                    None => None,
                    Some(None) => Some(None),
                    Some(Some(a)) => match eval2(m, y, (depth - 1) as nat) {
                        None => None,
                        Some(None) => Some(None),
                        Some(Some(b)) => match arith(kind, a, b) {
                            None => None,
                            Some(v) => Some(Some(v)),
                        },
                    },
                }
            },
        }
    }
}

/// What monkey `s` yells, or `None` when that depends on the human.
pub fn compute2(m: &Jobs, s: &str, depth: u64) -> (r: Option<i64>)
    requires
        eval2(m@, s@, depth as nat) is Some,
    ensures
        eval2(m@, s@, depth as nat) == Some(r),
    decreases depth,
{
    let h = "humn";
    proof {
        reveal_strlit("humn");
        assert(h@ =~= human());
    }
    if str_equal(s, h) {
        return None;
    }
    match m.get(s) {
        None => None,
        Some(op) => match op {
            Op::Number(n) => Some(*n),
            _ => {
                let (kind, x, y) = split_op(op);
                match compute2(m, x, depth - 1) {
                    None => None,
                    Some(a) => match compute2(m, y, depth - 1) {
                        None => None,
                        Some(b) => Some(apply_op(kind, a, b)),
                    },
                }
            },
        },
    }
}

/// The human is reachable from monkey `s` through the jobs, following them
/// at most `depth` deep.
pub open spec fn reaches_human(m: Map<Seq<char>, Op>, s: Seq<char>, depth: nat) -> bool
    decreases depth,
{
    if s == human() {
        true
    } else if depth == 0 || !m.contains_key(s) {
        false
    } else {
        match m[s] {
            Op::Number(_) => false,
            op => reaches_human(m, op_parts(op).1, (depth - 1) as nat) || reaches_human(
                m,
                op_parts(op).2,
                (depth - 1) as nat,
            ),
        }
    }
}

/// `m2` has the jobs of `m` for every monkey but the human.
pub open spec fn same_but_human(m: Map<Seq<char>, Op>, m2: Map<Seq<char>, Op>) -> bool {
    forall|k: Seq<char>| k != human() ==> (#[trigger] m2.contains_key(k) == m.contains_key(k) && (m.contains_key(k)
        ==> m2[k] == m[k]))
}

/// A value found without the human is what `eval` finds, whatever the
/// human's own job is.
proof fn lemma_eval2_known(m: Map<Seq<char>, Op>, m2: Map<Seq<char>, Op>, s: Seq<char>, depth: nat, v: i64)
    requires
        same_but_human(m, m2),
        eval2(m, s, depth) == Some(Some(v)),
    ensures
        eval(m2, s, depth) == Some(v),
    decreases depth,
{
    assert(s != human());
    assert(m2.contains_key(s) == m.contains_key(s));
    if let Op::Number(_) = m[s] {
    } else {
        let (kind, x, y) = op_parts(m[s]);
        let a = eval2(m, x, (depth - 1) as nat)->0->0;
        let b = eval2(m, y, (depth - 1) as nat)->0->0;
        lemma_eval2_known(m, m2, x, (depth - 1) as nat, a);
        lemma_eval2_known(m, m2, y, (depth - 1) as nat, b);
    }
}

/// What `compute2` finds: where the evaluation succeeds, it gives `None`
/// exactly when the human is reachable from `s`, and otherwise the number
/// that `compute` finds.
pub proof fn lemma_compute2_law(m: Map<Seq<char>, Op>, s: Seq<char>, depth: nat)
    requires
        eval2(m, s, depth) is Some,
    ensures
        eval2(m, s, depth) == Some(None::<i64>) <==> reaches_human(m, s, depth),
        eval2(m, s, depth) matches Some(Some(v)) ==> eval(m, s, depth) == Some(v),
    decreases depth,
{
    if s != human() {
        if let Op::Number(_) = m[s] {
        } else {
            let (kind, x, y) = op_parts(m[s]);
            lemma_compute2_law(m, x, (depth - 1) as nat);
            if eval2(m, x, (depth - 1) as nat) matches Some(Some(_)) {
                lemma_compute2_law(m, y, (depth - 1) as nat);
            }
        }
    }
    if let Some(Some(v)) = eval2(m, s, depth) {
        lemma_eval2_known(m, m, s, depth, v);
    }
}

/// `rank` orders the jobs: a monkey that waits on two others has a greater
/// rank than both. Such a rank exists exactly when the jobs have no cycle.
pub open spec fn ranked(m: Map<Seq<char>, Op>, rank: spec_fn(Seq<char>) -> nat) -> bool {
    forall|s: Seq<char>| m.contains_key(s) && !(#[trigger] m[s] is Number) ==> rank(op_parts(m[s]).1) < rank(s) && rank(
        op_parts(m[s]).2,
    ) < rank(s)
}

/// With the jobs ranked, the depth followed does not matter once it
/// exceeds a monkey's rank: `compute` and `compute2` give the same answer
/// for every such depth.
pub proof fn lemma_depth_enough(m: Map<Seq<char>, Op>, rank: spec_fn(Seq<char>) -> nat, s: Seq<char>, d1: nat, d2: nat)
    requires
        ranked(m, rank),
        d1 > rank(s),
        d2 > rank(s),
    ensures
        eval(m, s, d1) == eval(m, s, d2),
        eval2(m, s, d1) == eval2(m, s, d2),
    decreases rank(s),
{
    if m.contains_key(s) && !(m[s] is Number) {
        let (kind, x, y) = op_parts(m[s]);
        lemma_depth_enough(m, rank, x, (d1 - 1) as nat, (d2 - 1) as nat);
        lemma_depth_enough(m, rank, y, (d1 - 1) as nat, (d2 - 1) as nat);
    }
}

/// Why the human's number could not be found.
pub enum SolveError {
    NotFound(Seq<char>),
    FoundNumber,
    NoHuman,
    HumanTwice,
}

/// An error of `solve` as a plain value.
pub open spec fn solve_error(e: Error) -> SolveError {
    match e {
        Error::NotFound(k) => SolveError::NotFound(k@),
        Error::FoundNumber => SolveError::FoundNumber,
        Error::NoHuman => SolveError::NoHuman,
        _ => SolveError::HumanTwice,
    }
}

/// The name of the root monkey.
pub open spec fn root() -> Seq<char> {
    seq!['r', 'o', 'o', 't']
}

/// The right operand that makes `left op right == v`, rounded as Rust
/// rounds, when the left one is known.
pub open spec fn inverse_for_right(kind: int, v: i64, left: i64) -> Option<i64> {
    if kind == 1 {
        arith(2, v, left)
    } else if kind == 2 {
        arith(2, left, v)
    } else if kind == 3 {
        arith(4, v, left)
    } else {
        arith(4, left, v)
    }
}

/// The left operand that makes `left op right == v` when the right one is
/// known.
pub open spec fn inverse_for_left(kind: int, v: i64, right: i64) -> Option<i64> {
    if kind == 1 {
        arith(2, v, right)
    } else if kind == 2 {
        arith(1, v, right)
    } else if kind == 3 {
        arith(4, v, right)
    } else {
        arith(3, v, right)
    }
}

/// The number the human must yell for monkey `k` to yell `v`, the root
/// checking its two operands for equality; `None` where the evaluation
/// fails or goes deeper than `depth`.
pub open spec fn solve_spec(m: Map<Seq<char>, Op>, k: Seq<char>, v: i64, depth: nat) -> Option<
    Result<i64, SolveError>,
>
    decreases depth,
{
    if k == human() {
        Some(Ok(v))
    } else if depth == 0 {
        None
    } else if !m.contains_key(k) {
        Some(Err(SolveError::NotFound(k)))
    } else {
        match m[k] {
            Op::Number(_) => Some(Err(SolveError::FoundNumber)),
            op => {
                let (kind0, left, right) = op_parts(op);
                let kind = if k == root() { 2 } else { kind0 };
                match (eval2(m, left, depth), eval2(m, right, depth)) {
                    (Some(lr), Some(rr)) => match (lr, rr) {
                        (Some(_), Some(_)) => Some(Err(SolveError::NoHuman)),
                        (Some(lv), None) => match inverse_for_right(kind, v, lv) {
                            None => None,
                            Some(e) => solve_spec(m, right, e, (depth - 1) as nat),
                        },
                        (None, Some(rv)) => match inverse_for_left(kind, v, rv) {
                            None => None,
                            Some(e) => solve_spec(m, left, e, (depth - 1) as nat),
                        },
                        (None, None) => Some(Err(SolveError::HumanTwice)),
                    },
                    _ => None,
                }
            },
        }
    }
}

/// A result of `solve` as plain values.
pub open spec fn solve_res(r: Result<i64, Error>) -> Result<i64, SolveError> {
    match r {
        Ok(v) => Ok(v),
        Err(e) => Err(solve_error(e)),
    }
}

/// Finds the number the human must yell for monkey `k` to yell `v`; for
/// the root, for its two operands to be equal.
pub fn solve(m: &Jobs, k: &str, v: i64, depth: u64) -> (r: Result<i64, Error>)
    requires
        solve_spec(m@, k@, v, depth as nat) is Some,
    ensures
        solve_spec(m@, k@, v, depth as nat) == Some(solve_res(r)),
    decreases depth,
{
    let h = "humn";
    let rt = "root";
    proof {
        reveal_strlit("humn");
        reveal_strlit("root");
        assert(h@ =~= human());
        assert(rt@ =~= root());
    }
    if str_equal(k, h) {
        return Ok(v);
    }
    let node = match m.get(k) {
        Some(op) => op,
        None => {
            return Err(Error::NotFound(k.to_owned()));
        },
    };
    if let Op::Number(_) = node {
        return Err(Error::FoundNumber);
    }
    let (kind0, left, right) = split_op(node);
    let kind = if str_equal(k, rt) { 2 } else { kind0 };
    let left_result = compute2(m, left, depth);
    let right_result = compute2(m, right, depth);
    match (left_result, right_result) {
        (Some(_), Some(_)) => Err(Error::NoHuman),
        (Some(lv), None) => {
            let expected = if kind == 1 {
                apply_op(2, v, lv)
            } else if kind == 2 {
                apply_op(2, lv, v)
            } else if kind == 3 {
                apply_op(4, v, lv)
            } else {
                apply_op(4, lv, v)
            };
            solve(m, right, expected, depth - 1)
        },
        (None, Some(rv)) => {
            let expected = if kind == 1 {
                apply_op(2, v, rv)
            } else if kind == 2 {
                apply_op(1, v, rv)
            } else if kind == 3 {
                apply_op(4, v, rv)
            } else {
                apply_op(3, v, rv)
            };
            solve(m, left, expected, depth - 1)
        },
        (None, None) => Err(Error::HumanTwice),
    }
}

/// The number the human must yell for the root's two operands to be
/// equal.
pub fn part2(m: &Jobs, depth: u64) -> (r: Result<i64, Error>)
    requires
        solve_spec(m@, root(), 0, depth as nat) is Some,
    ensures
        solve_spec(m@, root(), 0, depth as nat) == Some(solve_res(r)),
{
    let rt = "root";
    proof {
        reveal_strlit("root");
        assert(rt@ =~= root());
    }
    solve(m, rt, 0, depth)
}

/// Every step that undoes an operation on the way from `k` down to the
/// human is exact (`left op right` gives back the number that was undone,
/// the root's job read as a subtraction), and no monkey below `k` on that
/// way is the root.
pub open spec fn exact(m: Map<Seq<char>, Op>, k: Seq<char>, v: i64, depth: nat) -> bool
    decreases depth,
{
    if k == human() || depth == 0 || !m.contains_key(k) {
        true
    } else {
        match m[k] {
            Op::Number(_) => true,
            op => {
                let (kind0, left, right) = op_parts(op);
                let kind = if k == root() { 2 } else { kind0 };
                match (eval2(m, left, depth), eval2(m, right, depth)) {
                    (Some(Some(lv)), Some(None)) => match inverse_for_right(kind, v, lv) {
                        Some(e) => right != root() && arith(kind, lv, e) == Some(v) && exact(
                            m,
                            right,
                            e,
                            (depth - 1) as nat,
                        ),
                        None => true,
                    },
                    (Some(None), Some(Some(rv))) => match inverse_for_left(kind, v, rv) {
                        Some(e) => left != root() && arith(kind, e, rv) == Some(v) && exact(
                            m,
                            left,
                            e,
                            (depth - 1) as nat,
                        ),
                        None => true,
                    },
                    _ => true,
                }
            },
        }
    }
}

/// With the human yelling what `solve` found, a monkey below the root on
/// the way yells the number it was solved for.
proof fn lemma_solve_value(m: Map<Seq<char>, Op>, k: Seq<char>, v: i64, depth: nat, h: i64)
    requires
        solve_spec(m, k, v, depth) == Some(Ok::<i64, SolveError>(h)),
        exact(m, k, v, depth),
        k != root(),
    ensures
        eval(m.insert(human(), Op::Number(h)), k, depth + 1) == Some(v),
    decreases depth,
{
    let m2 = m.insert(human(), Op::Number(h));
    assert(same_but_human(m, m2));
    if k != human() {
        let (kind, left, right) = op_parts(m[k]);
        assert(m2[k] == m[k]);
        match (eval2(m, left, depth), eval2(m, right, depth)) {
            (Some(Some(lv)), Some(None)) => {
                let e = inverse_for_right(kind, v, lv)->0;
                lemma_solve_value(m, right, e, (depth - 1) as nat, h);
                lemma_eval2_known(m, m2, left, depth, lv);
            },
            (Some(None), Some(Some(rv))) => {
                let e = inverse_for_left(kind, v, rv)->0;
                lemma_solve_value(m, left, e, (depth - 1) as nat, h);
                lemma_eval2_known(m, m2, right, depth, rv);
            },
            _ => {},
        }
    }
}

/// What `solve` finds is a solution: with the human yelling it, monkey
/// `k`'s two operands give `v` under its operation (the root's read as a
/// subtraction), so for the root and `v == 0` they are equal; this holds
/// where every step back down to the human is exact.
pub proof fn lemma_solve_law(m: Map<Seq<char>, Op>, k: Seq<char>, v: i64, depth: nat, h: i64)
    requires
        solve_spec(m, k, v, depth) == Some(Ok::<i64, SolveError>(h)),
        exact(m, k, v, depth),
        k != human(),
    ensures
        ({
            let m2 = m.insert(human(), Op::Number(h));
            let (kind0, left, right) = op_parts(m[k]);
            let kind = if k == root() { 2 } else { kind0 };
            &&& m.contains_key(k) && !(m[k] is Number)
            &&& eval(m2, left, depth) matches Some(a) && eval(m2, right, depth) matches Some(b) && arith(kind, a, b)
                == Some(v)
            &&& k == root() && v == 0 ==> eval(m2, left, depth) == eval(m2, right, depth)
        }),
{
    let m2 = m.insert(human(), Op::Number(h));
    assert(same_but_human(m, m2));
    let (kind0, left, right) = op_parts(m[k]);
    let kind = if k == root() { 2int } else { kind0 };
    match (eval2(m, left, depth), eval2(m, right, depth)) {
        (Some(Some(lv)), Some(None)) => {
            let e = inverse_for_right(kind, v, lv)->0;
            lemma_solve_value(m, right, e, (depth - 1) as nat, h);
            lemma_eval2_known(m, m2, left, depth, lv);
        },
        (Some(None), Some(Some(rv))) => {
            let e = inverse_for_left(kind, v, rv)->0;
            lemma_solve_value(m, left, e, (depth - 1) as nat, h);
            lemma_eval2_known(m, m2, right, depth, rv);
        },
        _ => {},
    }
}

/// With the jobs ranked, `solve` gives the same answer for every depth
/// above the rank of the monkey it starts from.
pub proof fn lemma_solve_depth_enough(
    m: Map<Seq<char>, Op>,
    rank: spec_fn(Seq<char>) -> nat,
    k: Seq<char>,
    v: i64,
    d1: nat,
    d2: nat,
)
    requires
        ranked(m, rank),
        d1 > rank(k),
        d2 > rank(k),
    ensures
        solve_spec(m, k, v, d1) == solve_spec(m, k, v, d2),
    decreases rank(k),
{
    if k != human() && m.contains_key(k) && !(m[k] is Number) {
        let (kind0, left, right) = op_parts(m[k]);
        lemma_depth_enough(m, rank, left, d1, d2);
        lemma_depth_enough(m, rank, right, d1, d2);
        let kind = if k == root() { 2 } else { kind0 };
        match (eval2(m, left, d1), eval2(m, right, d1)) {
            (Some(Some(lv)), Some(None)) => {
                if let Some(e) = inverse_for_right(kind, v, lv) {
                    lemma_solve_depth_enough(m, rank, right, e, (d1 - 1) as nat, (d2 - 1) as nat);
                }
            },
            (Some(None), Some(Some(rv))) => {
                if let Some(e) = inverse_for_left(kind, v, rv) {
                    lemma_solve_depth_enough(m, rank, left, e, (d1 - 1) as nat, (d2 - 1) as nat);
                }
            },
            _ => {},
        }
    }
}

/// A line names a monkey and a job that parses.
pub open spec fn line_ok(row: Seq<char>) -> bool {
    line_spec(row) matches Some((_, Some(_)))
}

/// The error `parse_line` gives for a line that does not parse.
pub open spec fn line_error(row: Seq<char>, e: Error) -> bool {
    match line_spec(row) {
        None => e matches Error::InvalidLine(t) && t@ == row,
        Some((_, None)) => e matches Error::BadNumber(t) && t@ == trimmed(row.skip(find_spec(row, ':')->0 + 1)),
        Some((_, Some(_))) => false,
    }
}

/// Reads every non-blank line, trimmed, as a monkey and its job.
pub fn read_input(lines: &Vec<String>) -> (r: Result<Jobs, Error>)
    ensures
        r matches Ok(j) ==> {
            let rows = nonblank(views_of(lines@));
            &&& j.entries@.len() == rows.len()
            &&& forall|k: int|
                0 <= k < rows.len() ==> (#[trigger] line_spec(rows[k]) matches Some((name, Some(job))) && j.entries@[k].0@
                    == name && job_view(j.entries@[k].1) == job)
        },
        r matches Err(e) ==> {
            let rows = nonblank(views_of(lines@));
            exists|k: int|
                0 <= k < rows.len() && line_error(#[trigger] rows[k], e) && forall|i: int| 0 <= i < k ==> line_ok(
                    #[trigger] rows[i],
                )
        },
{
    let rows = nonblank_lines(lines);
    let ghost rs = views_of(rows@);
    let mut jobs = Jobs::new();
    let n = rows.len();
    let mut k: usize = 0;
    while k < n
        invariant
            n == rows.len(),
            rs == views_of(rows@),
            rs == nonblank(views_of(lines@)),
            k <= n,
            jobs.entries@.len() == k,
            forall|i: int|
                0 <= i < k ==> (#[trigger] line_spec(rs[i]) matches Some((name, Some(job))) && jobs.entries@[i].0@
                    == name && job_view(jobs.entries@[i].1) == job),
        decreases n - k,
    {
        assert(rs[k as int] == rows@[k as int]@);
        match parse_line(rows[k].as_str()) {
            Ok((name, op)) => {
                let ghost before = jobs.entries@;
                jobs.entries.push((name, op));
                assert forall|i: int| 0 <= i < k + 1 implies (#[trigger] line_spec(rs[i]) matches Some((nm, Some(job)))
                    && jobs.entries@[i].0@ == nm && job_view(jobs.entries@[i].1) == job) by {
                    if i < k {
                        assert(jobs.entries@[i] == before[i]);
                    }
                }
            },
            Err(e) => {
                proof {
                    assert forall|i: int| 0 <= i < k implies line_ok(#[trigger] rs[i]) by {}
                    assert(line_error(rs[k as int], e));
                }
                return Err(e);
            },
        }
        k = k + 1;
    }
    Ok(jobs)
}

} // verus!
