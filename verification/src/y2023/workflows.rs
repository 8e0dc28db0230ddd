//! Aplenty: workflows of rules send machine parts, rated on four fields,
//! to acceptance or rejection; count the ratings from 1 to 4000 that end
//! accepted.
use vstd::prelude::*;
use core::ops::RangeInclusive;
use crate::common::split_on;
use crate::text::{find_char, find_spec, owned, parse_i64, trim, trimmed, parse_int, range_end, range_start, str_equal, strip_prefix};

verus! {

/// What went wrong.
#[derive(Clone, Copy, PartialEq, Eq, Structural)]
pub enum ErrorKind {
    InvalidField,
    MissingX,
    MissingFirstComma,
    MissingM,
    MissingSecondComma,
    MissingA,
    MissingThirdComma,
    MissingS,
    MissingClosingBrace,
    TrailingChars,
    InvalidNumber,
    InvalidConsequent,
    InvalidRule,
    InvalidWorkflow,
    /// A part was sent to a workflow that does not exist.
    MissingState,
    /// A part was sent round more workflows than there are: the workflows
    /// it passes form a cycle that never ends.
    Cycle,
}

/// An error of this puzzle: its kind and the text it concerns.
pub struct Error {
    pub kind: ErrorKind,
    pub text: String,
}

/// An error as a kind and the characters of its text.
pub open spec fn err_view(e: Error) -> (ErrorKind, Seq<char>) {
    (e.kind, e.text@)
}

/// A result as a value or an error view.
pub open spec fn res_view<T>(r: Result<T, Error>) -> Result<T, (ErrorKind, Seq<char>)> {
    match r {
        Ok(v) => Ok(v),
        Err(e) => Err(err_view(e)),
    }
}

/// A numeric result as an integer or an error view.
pub open spec fn res_int(r: Result<i64, Error>) -> Result<int, (ErrorKind, Seq<char>)> {
    match r {
        Ok(v) => Ok(v as int),
        Err(e) => Err(err_view(e)),
    }
}

/// A rating field of a part.
#[derive(Clone, Copy, PartialEq, Eq, Structural)]
pub enum Field {
    X,
    M,
    A,
    S,
}

/// A machine part: its four ratings.
#[derive(Clone, Copy)]
pub struct Part {
    pub x: i64,
    pub m: i64,
    pub a: i64,
    pub s: i64,
}

impl Part {
    /// The rating of a field.
    pub open spec fn rating(self, f: Field) -> int {
        match f {
            Field::X => self.x as int,
            Field::M => self.m as int,
            Field::A => self.a as int,
            Field::S => self.s as int,
        }
    }

    /// The rating of a field.
    pub fn get(&self, f: Field) -> (r: i64)
        ensures
            r == self.rating(f),
    {
        match f {
            Field::X => self.x,
            Field::M => self.m,
            Field::A => self.a,
            Field::S => self.s,
        }
    }

    /// The sum of the four ratings.
    pub fn score(&self) -> (r: i64)
        requires
            i64::MIN <= self.x + self.m <= i64::MAX,
            i64::MIN <= self.x + self.m + self.a <= i64::MAX,
            i64::MIN <= self.x + self.m + self.a + self.s <= i64::MAX,
        ensures
            r == self.x + self.m + self.a + self.s,
    {
        self.x + self.m + self.a + self.s
    }
}

/// Where a rule or a workflow sends a part.
pub enum Consequent {
    /// To the workflow of that name.
    Move(String),
    Accept,
    Reject,
}

/// The comparison of a rule.
#[derive(Clone, Copy, PartialEq, Eq, Structural)]
pub enum Op {
    LessThan,
    GreaterThan,
}

/// What a comparison means.
pub open spec fn holds(op: Op, a: int, b: int) -> bool {
    match op {
        Op::LessThan => a < b,
        Op::GreaterThan => a > b,
    }
}

impl Op {
    /// Compares two ratings.
    pub fn apply(&self, amount1: i64, amount2: i64) -> (r: bool)
        ensures
            r == holds(*self, amount1 as int, amount2 as int),
    {
        match self {
            Op::LessThan => amount1 < amount2,
            Op::GreaterThan => amount1 > amount2,
        }
    }
}

/// A rule: when the field compares to the amount, the consequent applies.
pub struct Rule {
    pub condition_field: Field,
    pub condition_op: Op,
    pub condition_amount: i64,
    pub consequent: Consequent,
}

impl Rule {
    /// Whether the rule applies to a part.
    pub open spec fn matches_part(&self, part: Part) -> bool {
        holds(self.condition_op, part.rating(self.condition_field), self.condition_amount as int)
    }

    /// The consequent, when the rule applies to the part.
    pub fn apply(&self, part: &Part) -> (r: Option<&Consequent>)
        ensures
            self.matches_part(*part) ==> r == Some(&self.consequent),
            !self.matches_part(*part) ==> r is None,
    {
        let amount1 = part.get(self.condition_field);
        let amount2 = self.condition_amount;
        if self.condition_op.apply(amount1, amount2) {
            Some(&self.consequent)
        } else {
            None
        }
    }
}

/// A named list of rules, tried in order, and where to send a part that
/// no rule applies to.
pub struct Workflow {
    pub name: String,
    pub rules: Vec<Rule>,
    pub fallback: Consequent,
}

/// The consequent of the first of the rules `k`, `k + 1`, ... that applies
/// to the part, else the fallback.
pub open spec fn first_consequent(w: Workflow, part: Part, k: nat) -> Consequent
    decreases w.rules@.len() - k,
{
    if k >= w.rules@.len() {
        w.fallback
    } else if w.rules@[k as int].matches_part(part) {
        w.rules@[k as int].consequent
    } else {
        first_consequent(w, part, k + 1)
    }
}

impl Workflow {
    /// Where the workflow sends a part: the consequent of the first rule
    /// that applies, else the fallback.
    pub fn apply(&self, part: &Part) -> (r: &Consequent)
        ensures
            *r == first_consequent(*self, *part, 0),
    {
        let n = self.rules.len();
        let mut k: usize = 0;
        while k < n
            invariant
                n == self.rules@.len(),
                k <= n,
                first_consequent(*self, *part, k as nat) == first_consequent(*self, *part, 0),
            decreases n - k,
        {
            if let Some(result) = self.rules[k].apply(part) {
                return result;
            }
            k = k + 1;
        }
        &self.fallback
    }
}

/// A range of ratings, both ends included.
pub open spec fn span(r: RangeInclusive<u64>) -> (int, int) {
    (r@.start as int, r@.end as int)
}

/// The two parts of `lo..=hi` by a rule with comparison `op` and amount `n`:
/// the ratings that match, then those that do not.
pub open spec fn split_spec(lo: int, hi: int, op: Op, n: int) -> (Option<(int, int)>, Option<(int, int)>) {
    match op {
        Op::LessThan => if n <= lo {
            (None, Some((lo, hi)))
        } else if n > hi {
            (Some((lo, hi)), None)
        } else {
            (Some((lo, n - 1)), Some((n, hi)))
        },
        Op::GreaterThan => if n >= hi {
            (None, Some((lo, hi)))
        } else if n < lo {
            (Some((lo, hi)), None)
        } else {
            (Some((n + 1, hi)), Some((lo, n)))
        },
    }
}

/// An optional range as an optional pair of bounds.
pub open spec fn opt_span(o: Option<RangeInclusive<u64>>) -> Option<(int, int)> {
    match o {
        Some(r) => Some(span(r)),
        None => None,
    }
}

/// Whether `v` lies in an optional range.
pub open spec fn in_span(o: Option<(int, int)>, v: int) -> bool {
    match o {
        Some(p) => p.0 <= v <= p.1,
        None => false,
    }
}

/// Splitting a range by a rule whose amount is not negative sorts every
/// rating of the range into exactly one part: the first holds the ratings
/// that satisfy the rule's comparison, the second the others.
pub proof fn lemma_split_partitions(lo: int, hi: int, op: Op, n: int, v: int)
    requires
        0 <= lo <= v <= hi,
        n >= 0,
    ensures
        in_span(split_spec(lo, hi, op, n).0, v) <==> holds(op, v, n),
        in_span(split_spec(lo, hi, op, n).1, v) <==> !holds(op, v, n),
{
}

/// Splits a range into the ratings that match the rule and those that do
/// not, each part present when it is not empty.
pub fn split_range(range: &RangeInclusive<u64>, rule: &Rule) -> (r: (
    Option<RangeInclusive<u64>>,
    Option<RangeInclusive<u64>>,
))
    ensures
        (opt_span(r.0), opt_span(r.1)) == split_spec(
            range@.start as int,
            range@.end as int,
            rule.condition_op,
            rule.condition_amount as u64 as int,
        ),
{
    let n = rule.condition_amount as u64;
    let start = range_start(range);
    let end = range_end(range);
    match rule.condition_op {
        Op::LessThan => {
            if n <= start {
                (None, Some(start..=end))
            } else if n > end {
                (Some(start..=end), None)
            } else {
                (Some(start..=n - 1), Some(n..=end))
            }
        },
        Op::GreaterThan => {
            if n >= end {
                (None, Some(start..=end))
            } else if n < start {
                (Some(start..=end), None)
            } else {
                (Some(n + 1..=end), Some(start..=n))
            }
        },
    }
}

/// The number of ratings in a range.
pub fn range_len(range: &RangeInclusive<u64>) -> (r: u64)
    requires
        range@.start <= range@.end + 1,
        range@.end < u64::MAX,
    ensures
        r == range@.end + 1 - range@.start,
{
    (range_end(range) + 1) - range_start(range)
}

/// The ratings still possible for each field.
pub struct Constraints {
    pub x: RangeInclusive<u64>,
    pub m: RangeInclusive<u64>,
    pub a: RangeInclusive<u64>,
    pub s: RangeInclusive<u64>,
}

/// Ranges of ratings, one for each field, as pairs of bounds.
pub struct Box4 {
    pub x: (int, int),
    pub m: (int, int),
    pub a: (int, int),
    pub s: (int, int),
}

impl Constraints {
    pub open spec fn view(&self) -> Box4 {
        Box4 { x: span(self.x), m: span(self.m), a: span(self.a), s: span(self.s) }
    }
}

/// The range of a field.
pub open spec fn field_span(b: Box4, f: Field) -> (int, int) {
    match f {
        Field::X => b.x,
        Field::M => b.m,
        Field::A => b.a,
        Field::S => b.s,
    }
}

/// `b` with the range of field `f` replaced.
pub open spec fn with_span(b: Box4, f: Field, r: (int, int)) -> Box4 {
    match f {
        Field::X => Box4 { x: r, ..b },
        Field::M => Box4 { m: r, ..b },
        Field::A => Box4 { a: r, ..b },
        Field::S => Box4 { s: r, ..b },
    }
}

/// A range of ratings that is not empty and whose length is a `u64`.
pub open spec fn span_ok(r: (int, int)) -> bool {
    0 <= r.0 <= r.1 < u64::MAX
}

/// Every range is a non-empty range of `u64` ratings, and the number of
/// combinations fits in a `u64`.
pub open spec fn box_ok(b: Box4) -> bool {
    span_ok(b.x) && span_ok(b.m) && span_ok(b.a) && span_ok(b.s) && volume(b) <= u64::MAX
}

/// The number of ratings in a range.
pub open spec fn span_len(r: (int, int)) -> int {
    r.1 + 1 - r.0
}

/// The number of combinations of ratings.
pub open spec fn volume(b: Box4) -> int {
    span_len(b.x) * span_len(b.m) * span_len(b.a) * span_len(b.s)
}

/// The combinations that match a rule and those that do not.
pub open spec fn split_box(b: Box4, rule: Rule) -> (Option<Box4>, Option<Box4>) {
    let r = field_span(b, rule.condition_field);
    let parts = split_spec(r.0, r.1, rule.condition_op, rule.condition_amount as u64 as int);
    (
        match parts.0 {
            Some(p) => Some(with_span(b, rule.condition_field, p)),
            None => None,
        },
        match parts.1 {
            Some(p) => Some(with_span(b, rule.condition_field, p)),
            None => None,
        },
    )
}

proof fn lemma_volume_bounds(b: Box4)
    requires
        box_ok(b),
    ensures
        ({
            let (p, q, r, t) = (span_len(b.x), span_len(b.m), span_len(b.a), span_len(b.s));
            1 <= p && 1 <= q && 1 <= r && 1 <= t && 1 <= p * q <= p * q * r <= volume(b) <= u64::MAX
        }),
{
    let (p, q, r, t) = (span_len(b.x), span_len(b.m), span_len(b.a), span_len(b.s));
    assert(1 <= p * q <= p * q * r <= p * q * r * t) by (nonlinear_arith)
        requires
            1 <= p,
            1 <= q,
            1 <= r,
            1 <= t,
    {
        assert(1 <= p * q);
        assert(p * q <= p * q * r);
    }
}

/// Splitting combinations by a rule loses none and counts none twice:
/// the two parts are well-formed and their volumes add up to the whole.
pub proof fn lemma_split_box(b: Box4, rule: Rule)
    requires
        box_ok(b),
    ensures
        split_box(b, rule).0 matches Some(c) ==> box_ok(c),
        split_box(b, rule).1 matches Some(c) ==> box_ok(c),
        split_box(b, rule).0 is Some || split_box(b, rule).1 is Some,
        (match split_box(b, rule).0 {
            Some(c) => volume(c),
            None => 0,
        }) + (match split_box(b, rule).1 {
            Some(c) => volume(c),
            None => 0,
        }) == volume(b),
{
    let (p, q, r, t) = (span_len(b.x), span_len(b.m), span_len(b.a), span_len(b.s));
    lemma_volume_bounds(b);
    let parts = split_box(b, rule);
    if parts.0 is Some && parts.1 is Some {
        let c1 = parts.0->0;
        let c2 = parts.1->0;
        match rule.condition_field {
            Field::X => {
                let (p1, p2) = (span_len(c1.x), span_len(c2.x));
                assert(p1 * q * r * t + p2 * q * r * t == p * q * r * t && 1 <= p1 * q * r * t && 1 <= p2 * q * r * t)
                    by (nonlinear_arith)
                    requires
                        p1 + p2 == p,
                        1 <= p1 && 1 <= p2 && 1 <= q && 1 <= r && 1 <= t,
                {
                }
            },
            Field::M => {
                let (q1, q2) = (span_len(c1.m), span_len(c2.m));
                assert(p * q1 * r * t + p * q2 * r * t == p * q * r * t && 1 <= p * q1 * r * t && 1 <= p * q2 * r * t)
                    by (nonlinear_arith)
                    requires
                        q1 + q2 == q,
                        1 <= p && 1 <= q1 && 1 <= q2 && 1 <= r && 1 <= t,
                {
                }
            },
            Field::A => {
                let (r1, r2) = (span_len(c1.a), span_len(c2.a));
                assert(p * q * r1 * t + p * q * r2 * t == p * q * r * t && 1 <= p * q * r1 * t && 1 <= p * q * r2 * t)
                    by (nonlinear_arith)
                    requires
                        r1 + r2 == r,
                        1 <= p && 1 <= q && 1 <= r1 && 1 <= r2 && 1 <= t,
                {
                }
            },
            Field::S => {
                let (t1, t2) = (span_len(c1.s), span_len(c2.s));
                assert(p * q * r * t1 + p * q * r * t2 == p * q * r * t && 1 <= p * q * r * t1 && 1 <= p * q * r * t2)
                    by (nonlinear_arith)
                    requires
                        t1 + t2 == t,
                        1 <= p && 1 <= q && 1 <= r && 1 <= t1 && 1 <= t2,
                {
                }
            },
        }
    } else {
        let f = rule.condition_field;
        if let Some(c) = parts.0 {
            assert(field_span(c, f) == field_span(b, f));
            assert(c == b);
        }
        if let Some(c) = parts.1 {
            assert(field_span(c, f) == field_span(b, f));
            assert(c == b);
        }
    }
}

/// The ratings of `p` lie in the ranges of `b`.
pub open spec fn in_box(b: Box4, p: Part) -> bool {
    &&& b.x.0 <= p.x <= b.x.1
    &&& b.m.0 <= p.m <= b.m.1
    &&& b.a.0 <= p.a <= b.a.1
    &&& b.s.0 <= p.s <= b.s.1
}

/// The ratings of `p` lie in the ranges of an optional `b`.
pub open spec fn in_opt_box(o: Option<Box4>, p: Part) -> bool {
    match o {
        Some(b) => in_box(b, p),
        None => false,
    }
}

/// Splitting by a rule whose amount is not negative sorts the parts of `b`:
/// the first box holds exactly those that the rule applies to, the second
/// exactly the others, and each differs from `b` only in the range of the
/// rule's field.
pub proof fn lemma_split_points(b: Box4, rule: Rule, p: Part)
    requires
        rule.condition_amount >= 0,
    ensures
        in_opt_box(split_box(b, rule).0, p) <==> in_box(b, p) && rule.matches_part(p),
        in_opt_box(split_box(b, rule).1, p) <==> in_box(b, p) && !rule.matches_part(p),
        split_box(b, rule).0 matches Some(c) ==> forall|f: Field| f != rule.condition_field ==> field_span(c, f)
            == field_span(b, f),
        split_box(b, rule).1 matches Some(c) ==> forall|f: Field| f != rule.condition_field ==> field_span(c, f)
            == field_span(b, f),
{
}

impl Constraints {
    /// Every rating from 1 to 4000 for every field.
    pub fn new() -> (r: Constraints)
        ensures
            r@ == (Box4 { x: (1, 4000), m: (1, 4000), a: (1, 4000), s: (1, 4000) }),
    {
        Constraints { x: 1..=4000, m: 1..=4000, a: 1..=4000, s: 1..=4000 }
    }

    /// A copy with the range of `field` replaced.
    pub fn with(&self, field: &Field, range: RangeInclusive<u64>) -> (r: Constraints)
        ensures
            r@ == with_span(self@, *field, span(range)),
    {
        let x = range_start(&self.x)..=range_end(&self.x);
        let m = range_start(&self.m)..=range_end(&self.m);
        let a = range_start(&self.a)..=range_end(&self.a);
        let s = range_start(&self.s)..=range_end(&self.s);
        match field {
            Field::X => Constraints { x: range, m, a, s },
            Field::M => Constraints { x, m: range, a, s },
            Field::A => Constraints { x, m, a: range, s },
            Field::S => Constraints { x, m, a, s: range },
        }
    }

    /// The combinations that match the rule and those that do not, each
    /// present when it is not empty.
    pub fn split(&self, rule: &Rule) -> (r: (Option<Constraints>, Option<Constraints>))
        ensures
            (match r.0 {
                Some(c) => Some(c@),
                None => None,
            }) == split_box(self@, *rule).0,
            (match r.1 {
                Some(c) => Some(c@),
                None => None,
            }) == split_box(self@, *rule).1,
    {
        let start_range = match rule.condition_field {
            Field::X => &self.x,
            Field::M => &self.m,
            Field::A => &self.a,
            Field::S => &self.s,
        };
        let (r1, r2) = split_range(start_range, rule);
        let c1 = match r1 {
            Some(r) => Some(self.with(&rule.condition_field, r)),
            None => None,
        };
        let c2 = match r2 {
            Some(r) => Some(self.with(&rule.condition_field, r)),
            None => None,
        };
        (c1, c2)
    }

    /// The number of combinations of ratings.
    pub fn count(&self) -> (r: u64)
        requires
            box_ok(self@),
        ensures
            r == volume(self@),
    {
        proof {
            lemma_volume_bounds(self@);
        }
        range_len(&self.x) * range_len(&self.m) * range_len(&self.a) * range_len(&self.s)
    }
}

/// The workflows by name; where two share a name, the later one counts.
pub open spec fn workflow_map(ws: Seq<Workflow>) -> Map<Seq<char>, Workflow>
    decreases ws.len(),
{
    if ws.len() == 0 {
        Map::empty()
    } else {
        workflow_map(ws.drop_last()).insert(ws.last().name@, ws.last())
    }
}

/// The workflows of the system.
pub struct Machine {
    pub workflows: Vec<Workflow>,
}

impl Machine {
    pub open spec fn view(&self) -> Map<Seq<char>, Workflow> {
        workflow_map(self.workflows@)
    }
}

proof fn lemma_map_last(ws: Seq<Workflow>, i: int, name: Seq<char>)
    requires
        0 <= i < ws.len(),
        ws[i].name@ == name,
        forall|j: int| i < j < ws.len() ==> (#[trigger] ws[j]).name@ != name,
    ensures
        workflow_map(ws).contains_key(name),
        workflow_map(ws)[name] == ws[i],
    decreases ws.len(),
{
    if i < ws.len() - 1 {
        lemma_map_last(ws.drop_last(), i, name);
    }
}

proof fn lemma_map_none(ws: Seq<Workflow>, name: Seq<char>)
    requires
        forall|j: int| 0 <= j < ws.len() ==> (#[trigger] ws[j]).name@ != name,
    ensures
        !workflow_map(ws).contains_key(name),
    decreases ws.len(),
{
    if ws.len() > 0 {
        lemma_map_none(ws.drop_last(), name);
    }
}

impl Machine {
    /// A system with no workflows.
    pub fn new() -> (r: Machine)
        ensures
            r@ == Map::<Seq<char>, Workflow>::empty(),
            r.workflows@.len() == 0,
    {
        Machine { workflows: Vec::new() }
    }

    /// Adds a workflow, replacing any of the same name.
    pub fn insert(&mut self, w: Workflow)
        ensures
            final(self)@ == old(self)@.insert(w.name@, w),
    {
        let ghost before = self.workflows@;
        self.workflows.push(w);
        assert(self.workflows@.drop_last() =~= before);
    }

    /// The workflow of a name.
    pub fn lookup(&self, name: &str) -> (r: Option<&Workflow>)
        ensures
            r matches Some(w) ==> self@.contains_key(name@) && *w == self@[name@],
            r is None ==> !self@.contains_key(name@),
    {
        let n = self.workflows.len();
        let mut k: usize = n;
        while k > 0
            invariant
                n == self.workflows.len(),
                k <= n,
                forall|j: int| k <= j < n ==> (#[trigger] self.workflows@[j]).name@ != name@,
            decreases k,
        {
            if str_equal(self.workflows[k - 1].name.as_str(), name) {
                proof {
                    lemma_map_last(self.workflows@, k - 1, name@);
                }
                return Some(&self.workflows[k - 1]);
            }
            k = k - 1;
        }
        proof {
            lemma_map_none(self.workflows@, name@);
        }
        None
    }
}

/// The number of combinations in `b` that end accepted when they enter
/// workflow `state`, following moves at most `depth` deep; `None` where a
/// workflow is missing or the moves go deeper.
pub open spec fn count_in(wfs: Map<Seq<char>, Workflow>, state: Seq<char>, b: Box4, depth: nat) -> Option<
    int,
>
    decreases depth, 2nat, 0nat,
{
    if depth == 0 || !wfs.contains_key(state) {
        None
    } else {
        count_rules(wfs, wfs[state], 0, b, depth)
    }
}

/// The same for combinations that reach rule `k` of workflow `w`.
pub open spec fn count_rules(wfs: Map<Seq<char>, Workflow>, w: Workflow, k: nat, b: Box4, depth: nat) -> Option<
    int,
>
    decreases depth, 1nat, w.rules@.len() - k,
{
    if k >= w.rules@.len() {
        count_consequent(wfs, w.fallback, b, depth)
    } else {
        let parts = split_box(b, w.rules@[k as int]);
        let first = match parts.0 {
            None => Some(0),
            Some(c) => count_consequent(wfs, w.rules@[k as int].consequent, c, depth),
        };
        match first {
            None => None,
            Some(t1) => match parts.1 {
                None => Some(t1),
                Some(c2) => match count_rules(wfs, w, k + 1, c2, depth) {
                    None => None,
                    Some(t2) => Some(t1 + t2),
                },
            },
        }
    }
}

/// The same for combinations sent to consequent `c`.
pub open spec fn count_consequent(wfs: Map<Seq<char>, Workflow>, c: Consequent, b: Box4, depth: nat) -> Option<
    int,
>
    decreases depth, 0nat, 0nat,
{
    match c {
        Consequent::Accept => Some(volume(b)),
        Consequent::Reject => Some(0),
        Consequent::Move(dest) => if depth == 0 {
            None
        } else {
            count_in(wfs, dest@, b, (depth - 1) as nat)
        },
    }
}

proof fn lemma_count_in_bound(wfs: Map<Seq<char>, Workflow>, state: Seq<char>, b: Box4, depth: nat)
    requires
        box_ok(b),
    ensures
        count_in(wfs, state, b, depth) matches Some(t) ==> 0 <= t <= volume(b),
    decreases depth, 2nat, 0nat,
{
    if depth > 0 && wfs.contains_key(state) {
        lemma_count_rules_bound(wfs, wfs[state], 0, b, depth);
    }
}

proof fn lemma_count_rules_bound(wfs: Map<Seq<char>, Workflow>, w: Workflow, k: nat, b: Box4, depth: nat)
    requires
        box_ok(b),
    ensures
        count_rules(wfs, w, k, b, depth) matches Some(t) ==> 0 <= t <= volume(b),
    decreases depth, 1nat, w.rules@.len() - k,
{
    if k >= w.rules@.len() {
        lemma_count_consequent_bound(wfs, w.fallback, b, depth);
    } else {
        let rule = w.rules@[k as int];
        lemma_split_box(b, rule);
        let parts = split_box(b, rule);
        if let Some(c) = parts.0 {
            lemma_count_consequent_bound(wfs, rule.consequent, c, depth);
        }
        if let Some(c2) = parts.1 {
            lemma_count_rules_bound(wfs, w, k + 1, c2, depth);
        }
    }
}

proof fn lemma_count_consequent_bound(wfs: Map<Seq<char>, Workflow>, c: Consequent, b: Box4, depth: nat)
    requires
        box_ok(b),
    ensures
        count_consequent(wfs, c, b, depth) matches Some(t) ==> 0 <= t <= volume(b),
    decreases depth, 0nat, 0nat,
{
    lemma_volume_bounds(b);
    if let Consequent::Move(dest) = c {
        if depth > 0 {
            lemma_count_in_bound(wfs, dest@, b, (depth - 1) as nat);
        }
    }
}

impl Machine {
    /// The number of combinations in `constraints` that end accepted from
    /// workflow `state`, following moves at most `depth` deep.
    pub fn count_possibilities_internal(&self, state: &str, constraints: Constraints, depth: u64) -> (r: u64)
        requires
            box_ok(constraints@),
            count_in(self@, state@, constraints@, depth as nat) is Some,
        ensures
            count_in(self@, state@, constraints@, depth as nat) == Some(r as int),
        decreases depth,
    {
        let ghost wfs = self@;
        let ghost b0 = constraints@;
        let workflow = match self.lookup(state) {
            Some(w) => w,
            None => {
                return 0;
            },
        };
        let ghost goal = count_rules(wfs, *workflow, 0, b0, depth as nat)->0;
        assert(count_in(wfs, state@, b0, depth as nat) == Some(goal));
        proof {
            lemma_count_rules_bound(wfs, *workflow, 0, b0, depth as nat);
            lemma_volume_bounds(b0);
        }
        let mut total: u64 = 0;
        let mut current = constraints;
        let n = workflow.rules.len();
        let mut k: usize = 0;
        while k < n
            invariant
                wfs == self@,
                depth > 0,
                n == workflow.rules@.len(),
                k <= n,
                box_ok(current@),
                goal <= u64::MAX,
                count_in(wfs, state@, b0, depth as nat) == Some(goal),
                b0 == constraints@,
                count_rules(wfs, *workflow, k as nat, current@, depth as nat) matches Some(rest) && total + rest
                    == goal,
            decreases n - k,
        {
            let rule = &workflow.rules[k];
            proof {
                lemma_split_box(current@, *rule);
                lemma_count_rules_bound(wfs, *workflow, (k + 1) as nat, current@, depth as nat);
            }
            let (c1, c2) = current.split(rule);
            let ghost old_total = total;
            if let Some(c) = c1 {
                proof {
                    lemma_count_consequent_bound(wfs, rule.consequent, c@, depth as nat);
                    if let Some(c2v) = &c2 {
                        lemma_count_rules_bound(wfs, *workflow, (k + 1) as nat, c2v@, depth as nat);
                    }
                }
                match &rule.consequent {
                    Consequent::Accept => {
                        total = total + c.count();
                    },
                    Consequent::Reject => {},
                    Consequent::Move(dest) => {
                        total = total + self.count_possibilities_internal(dest.as_str(), c, depth - 1);
                    },
                }
            }
            match c2 {
                Some(c) => {
                    current = c;
                },
                None => {
                    assert(count_rules(wfs, *workflow, k as nat, current@, depth as nat) == Some(
                        total - old_total,
                    ));
                    return total;
                },
            }
            k = k + 1;
        }
        proof {
            lemma_count_consequent_bound(wfs, workflow.fallback, current@, depth as nat);
        }
        match &workflow.fallback {
            Consequent::Accept => {
                total = total + current.count();
            },
            Consequent::Reject => {},
            Consequent::Move(dest) => {
                total = total + self.count_possibilities_internal(dest.as_str(), current, depth - 1);
            },
        }
        total
    }

    /// The workflows followed from `in` end, for every combination, without
    /// a cycle and without naming a missing workflow.
    pub open spec fn counts_settle(&self) -> bool {
        count_in(self@, seq!['i', 'n'], Box4 { x: (1, 4000), m: (1, 4000), a: (1, 4000), s: (1, 4000) }, self.workflows@.len() + 1) is Some
    }

    /// The number of combinations of ratings from 1 to 4000 that end
    /// accepted from workflow `in`.
    pub fn count_possibilities(&self) -> (r: u64)
        requires
            self.counts_settle(),
            self.workflows.len() < u64::MAX,
        ensures
            count_in(self@, seq!['i', 'n'], Box4 { x: (1, 4000), m: (1, 4000), a: (1, 4000), s: (1, 4000) }, self.workflows@.len() + 1)
                == Some(r as int),
    {
        let start = "in";
        proof {
            reveal_strlit("in");
            assert(start@ =~= seq!['i', 'n']);
            let b = Box4 { x: (1, 4000), m: (1, 4000), a: (1, 4000), s: (1, 4000) };
            assert(volume(b) == 4000 * 4000 * 4000 * 4000);
        }
        self.count_possibilities_internal(start, Constraints::new(), self.workflows.len() as u64 + 1)
    }
}

/// Where a part that enters workflow `state` ends, following at most
/// `fuel` workflows: accepted, rejected, or the error met.
pub open spec fn run(wfs: Map<Seq<char>, Workflow>, state: Seq<char>, part: Part, fuel: nat) -> Result<
    bool,
    (ErrorKind, Seq<char>),
>
    decreases fuel,
{
    if fuel == 0 {
        Err((ErrorKind::Cycle, state))
    } else if !wfs.contains_key(state) {
        Err((ErrorKind::MissingState, state))
    } else {
        match first_consequent(wfs[state], part, 0) {
            Consequent::Accept => Ok(true),
            Consequent::Reject => Ok(false),
            Consequent::Move(next) => run(wfs, next@, part, (fuel - 1) as nat),
        }
    }
}

/// The name of the first workflow.
pub open spec fn start_name() -> Seq<char> {
    seq!['i', 'n']
}

/// The sum of the ratings of the accepted parts among `parts`, or the
/// first error met.
pub open spec fn total_accepted(wfs: Map<Seq<char>, Workflow>, parts: Seq<Part>, fuel: nat) -> Result<
    int,
    (ErrorKind, Seq<char>),
>
    decreases parts.len(),
{
    if parts.len() == 0 {
        Ok(0)
    } else {
        match total_accepted(wfs, parts.drop_last(), fuel) {
            Err(e) => Err(e),
            Ok(t) => match run(wfs, start_name(), parts.last(), fuel) {
                Err(e) => Err(e),
                Ok(accepted) => Ok(
                    t + if accepted {
                        parts.last().x + parts.last().m + parts.last().a + parts.last().s
                    } else {
                        0
                    },
                ),
            },
        }
    }
}

/// The ratings of each part, and the running totals, fit in `i64`.
pub open spec fn totals_fit(wfs: Map<Seq<char>, Workflow>, parts: Seq<Part>, fuel: nat) -> bool {
    &&& forall|k: int|
        0 <= k < parts.len() ==> {
            let p = #[trigger] parts[k];
            &&& i64::MIN <= p.x + p.m <= i64::MAX
            &&& i64::MIN <= p.x + p.m + p.a <= i64::MAX
            &&& i64::MIN <= p.x + p.m + p.a + p.s <= i64::MAX
        }
    &&& forall|n: int|
        0 <= n <= parts.len() ==> (#[trigger] total_accepted(wfs, parts.take(n), fuel) matches Ok(t) ==> i64::MIN
            <= t <= i64::MAX)
}

impl Machine {
    /// Whether a part ends accepted, starting from workflow `in`; fails on a
    /// missing workflow, and on a part sent round more workflows than there
    /// are.
    pub fn apply(&self, part: &Part) -> (r: Result<bool, Error>)
        requires
            self.workflows.len() < u64::MAX,
        ensures
            res_view(r) == run(self@, start_name(), *part, self.workflows@.len() + 1),
    {
        let in_name = "in";
        proof {
            reveal_strlit("in");
            assert(in_name@ =~= start_name());
        }
        let mut state = owned(in_name);
        let mut fuel: u64 = self.workflows.len() as u64 + 1;
        let ghost goal = run(self@, start_name(), *part, self.workflows@.len() + 1);
        loop
            invariant
                run(self@, state@, *part, fuel as nat) == goal,
                goal == run(self@, start_name(), *part, self.workflows@.len() + 1),
            decreases fuel,
        {
            if fuel == 0 {
                return Err(Error { kind: ErrorKind::Cycle, text: state });
            }
            let workflow = match self.lookup(state.as_str()) {
                Some(w) => w,
                None => {
                    return Err(Error { kind: ErrorKind::MissingState, text: state });
                },
            };
            match workflow.apply(part) {
                Consequent::Accept => {
                    return Ok(true);
                },
                Consequent::Reject => {
                    return Ok(false);
                },
                Consequent::Move(next) => {
                    state = owned(next.as_str());
                },
            }
            fuel = fuel - 1;
        }
    }

    /// The sum of the ratings of the accepted parts; fails with the first
    /// error met.
    pub fn apply_all(&self, parts: &Vec<Part>) -> (r: Result<i64, Error>)
        requires
            self.workflows.len() < u64::MAX,
            totals_fit(self@, parts@, self.workflows@.len() + 1),
        ensures
            res_int(r) == total_accepted(self@, parts@, self.workflows@.len() + 1),
    {
        let ghost fuel = self.workflows@.len() + 1;
        let mut total: i64 = 0;
        let n = parts.len();
        let mut k: usize = 0;
        while k < n
            invariant
                n == parts.len(),
                k <= n,
                self.workflows.len() < u64::MAX,
                fuel == self.workflows@.len() + 1,
                totals_fit(self@, parts@, fuel),
                total_accepted(self@, parts@.take(k as int), fuel) == Ok::<int, (ErrorKind, Seq<char>)>(
                    total as int,
                ),
            decreases n - k,
        {
            let part = &parts[k];
            assert(parts@.take(k + 1).drop_last() =~= parts@.take(k as int));
            assert(parts@.take(k + 1).last() == parts@[k as int]);
            let accepted = match self.apply(part) {
                Ok(b) => b,
                Err(e) => {
                    proof {
                        lemma_total_error(self@, parts@, fuel, k + 1);
                    }
                    return Err(e);
                },
            };
            assert(total_accepted(self@, parts@.take(k + 1), fuel) matches Ok(t) && i64::MIN <= t <= i64::MAX);
            if accepted {
                assert(i64::MIN <= part.x + part.m + part.a + part.s <= i64::MAX);
                total = total + part.score();
            }
            k = k + 1;
        }
        assert(parts@.take(n as int) =~= parts@);
        Ok(total)
    }
}

proof fn lemma_total_error(wfs: Map<Seq<char>, Workflow>, parts: Seq<Part>, fuel: nat, n: int)
    requires
        0 <= n <= parts.len(),
        total_accepted(wfs, parts.take(n), fuel) is Err,
    ensures
        total_accepted(wfs, parts, fuel) == total_accepted(wfs, parts.take(n), fuel),
    decreases parts.len() - n,
{
    if n < parts.len() {
        assert(parts.take(n + 1).drop_last() =~= parts.take(n));
        lemma_total_error(wfs, parts, fuel, n + 1);
    } else {
        assert(parts.take(n) =~= parts);
    }
}

/// What `Field::from_str` makes of `s`.
pub open spec fn field_spec(s: Seq<char>) -> Result<Field, (ErrorKind, Seq<char>)> {
    if s == seq!['x'] {
        Ok(Field::X)
    } else if s == seq!['m'] {
        Ok(Field::M)
    } else if s == seq!['a'] {
        Ok(Field::A)
    } else if s == seq!['s'] {
        Ok(Field::S)
    } else {
        Err((ErrorKind::InvalidField, s))
    }
}

impl Field {
    /// Reads a field from its one-letter name.
    pub fn from_str(s: &str) -> (r: Result<Field, Error>)
        ensures
            res_view(r) == field_spec(s@),
    {
        if s.unicode_len() != 1 {
            return Err(Error { kind: ErrorKind::InvalidField, text: owned(s) });
        }
        let c = s.get_char(0);
        proof {
            assert(c == 'x' ==> s@ =~= seq!['x']);
            assert(c == 'm' ==> s@ =~= seq!['m']);
            assert(c == 'a' ==> s@ =~= seq!['a']);
            assert(c == 's' ==> s@ =~= seq!['s']);
        }
        match c {
            'x' => Ok(Field::X),
            'm' => Ok(Field::M),
            'a' => Ok(Field::A),
            's' => Ok(Field::S),
            _ => Err(Error { kind: ErrorKind::InvalidField, text: owned(s) }),
        }
    }
}

/// Whether `c` has the Unicode `Alphabetic` property.
pub uninterp spec fn alphabetic(c: char) -> bool;

/// Calls `char::is_alphabetic`, which tests the Unicode `Alphabetic`
/// property; its result is named, not stated.
#[verifier::external_body]
fn is_alphabetic(c: char) -> (r: bool)
    ensures
        r == alphabetic(c),
{
    c.is_alphabetic()
}

/// Where a consequent sends a part, as plain values.
pub enum Target {
    Move(Seq<char>),
    Accept,
    Reject,
}

/// The target of a consequent.
pub open spec fn target(c: Consequent) -> Target {
    match c {
        Consequent::Move(s) => Target::Move(s@),
        Consequent::Accept => Target::Accept,
        Consequent::Reject => Target::Reject,
    }
}

/// What `Consequent::from_str` makes of `s`: `A` accepts, `R` rejects,
/// another non-empty alphabetic name moves to that workflow.
pub open spec fn consequent_spec(s: Seq<char>) -> Result<Target, (ErrorKind, Seq<char>)> {
    if s.len() == 0 || exists|i: int| 0 <= i < s.len() && !alphabetic(#[trigger] s[i]) {
        Err((ErrorKind::InvalidConsequent, s))
    } else if s == seq!['A'] {
        Ok(Target::Accept)
    } else if s == seq!['R'] {
        Ok(Target::Reject)
    } else {
        Ok(Target::Move(s))
    }
}

/// A parsed consequent as a target or an error view.
pub open spec fn cons_res(r: Result<Consequent, Error>) -> Result<Target, (ErrorKind, Seq<char>)> {
    match r {
        Ok(c) => Ok(target(c)),
        Err(e) => Err(err_view(e)),
    }
}

impl Consequent {
    /// Reads a consequent.
    pub fn from_str(s: &str) -> (r: Result<Consequent, Error>)
        ensures
            cons_res(r) == consequent_spec(s@),
    {
        let n = s.unicode_len();
        if n == 0 {
            return Err(Error { kind: ErrorKind::InvalidConsequent, text: owned(s) });
        }
        let mut i: usize = 0;
        while i < n
            invariant
                n == s@.len(),
                i <= n,
                forall|j: int| 0 <= j < i ==> alphabetic(#[trigger] s@[j]),
            decreases n - i,
        {
            if !is_alphabetic(s.get_char(i)) {
                return Err(Error { kind: ErrorKind::InvalidConsequent, text: owned(s) });
            }
            i = i + 1;
        }
        let accept = "A";
        let reject = "R";
        proof {
            reveal_strlit("A");
            reveal_strlit("R");
            assert(accept@ =~= seq!['A']);
            assert(reject@ =~= seq!['R']);
        }
        if str_equal(s, accept) {
            Ok(Consequent::Accept)
        } else if str_equal(s, reject) {
            Ok(Consequent::Reject)
        } else {
            Ok(Consequent::Move(owned(s)))
        }
    }
}

/// A rule as plain values.
pub open spec fn rule_view(r: Rule) -> (Field, Op, int, Target) {
    (r.condition_field, r.condition_op, r.condition_amount as int, target(r.consequent))
}

/// What `Rule::from_str` makes of `s`: a field, `<` or `>`, an amount, a
/// colon and a consequent.
pub open spec fn rule_spec(s: Seq<char>) -> Result<(Field, Op, int, Target), (ErrorKind, Seq<char>)> {
    match find_spec(s, ':') {
        None => Err((ErrorKind::InvalidRule, s)),
        Some(i) => {
            let antecedent = s.take(i);
            match consequent_spec(s.skip(i + 1)) {
                Err(e) => Err(e),
                Ok(t) => {
                    let (c, op) = if find_spec(antecedent, '<') is Some {
                        ('<', Op::LessThan)
                    } else {
                        ('>', Op::GreaterThan)
                    };
                    match find_spec(antecedent, c) {
                        None => Err((ErrorKind::InvalidRule, s)),
                        Some(j) => match field_spec(antecedent.take(j)) {
                            Err(e) => Err(e),
                            Ok(f) => match parse_int(antecedent.skip(j + 1), true, i64::MIN as int, i64::MAX as int) {
                                None => Err((ErrorKind::InvalidNumber, antecedent.skip(j + 1))),
                                Some(v) => Ok((f, op, v, t)),
                            },
                        },
                    }
                },
            }
        },
    }
}

/// A parsed rule as plain values or an error view.
pub open spec fn rule_res(r: Result<Rule, Error>) -> Result<(Field, Op, int, Target), (ErrorKind, Seq<char>)> {
    match r {
        Ok(v) => Ok(rule_view(v)),
        Err(e) => Err(err_view(e)),
    }
}

impl Rule {
    /// Reads a rule such as `a<2006:qkq`.
    pub fn from_str(s: &str) -> (r: Result<Rule, Error>)
        ensures
            rule_res(r) == rule_spec(s@),
    {
        let (antecedent, consequent) = match split_on(s, ':') {
            Some(p) => p,
            None => {
                return Err(Error { kind: ErrorKind::InvalidRule, text: owned(s) });
            },
        };
        let consequent = Consequent::from_str(consequent)?;
        let (op, condition_op) = if find_char(antecedent, '<').is_some() {
            ('<', Op::LessThan)
        } else {
            ('>', Op::GreaterThan)
        };
        let (field, amount) = match split_on(antecedent, op) {
            Some(p) => p,
            None => {
                return Err(Error { kind: ErrorKind::InvalidRule, text: owned(s) });
            },
        };
        let condition_field = Field::from_str(field)?;
        let condition_amount = match parse_i64(amount) {
            Some(v) => v,
            None => {
                return Err(Error { kind: ErrorKind::InvalidNumber, text: owned(amount) });
            },
        };
        Ok(Rule { condition_field, condition_op, condition_amount, consequent })
    }
}

/// `s` cut at every comma.
pub open spec fn split_commas(s: Seq<char>) -> Seq<Seq<char>>
    decreases s.len(),
{
    match find_spec(s, ',') {
        None => seq![s],
        Some(i) => {
            proof {
                crate::text::lemma_find_in_range(s, ',');
            }
            seq![s.take(i)] + split_commas(s.skip(i + 1))
        },
    }
}

/// The rules read from each text, or the first error.
pub open spec fn rules_spec(ps: Seq<Seq<char>>) -> Result<Seq<(Field, Op, int, Target)>, (ErrorKind, Seq<char>)>
    decreases ps.len(),
{
    if ps.len() == 0 {
        Ok(Seq::empty())
    } else {
        match rules_spec(ps.drop_last()) {
            Err(e) => Err(e),
            Ok(v) => match rule_spec(ps.last()) {
                Err(e) => Err(e),
                Ok(r) => Ok(v.push(r)),
            },
        }
    }
}

/// What `Workflow::from_str` makes of `s`: a name, then in braces rules
/// separated by commas, the last item being the fallback.
pub open spec fn workflow_spec(s: Seq<char>) -> Result<
    (Seq<char>, Seq<(Field, Op, int, Target)>, Target),
    (ErrorKind, Seq<char>),
> {
    match find_spec(s, '{') {
        None => Err((ErrorKind::InvalidWorkflow, s)),
        Some(i) => {
            let rules = s.skip(i + 1);
            if rules.len() == 0 || rules.last() != '}' {
                Err((ErrorKind::InvalidWorkflow, s))
            } else {
                let ps = split_commas(rules.drop_last());
                match rules_spec(ps.drop_last()) {
                    Err(e) => Err(e),
                    Ok(rs) => match consequent_spec(ps.last()) {
                        Err(e) => Err(e),
                        Ok(t) => Ok((s.take(i), rs, t)),
                    },
                }
            }
        }
    }
}

/// A workflow as plain values.
pub open spec fn workflow_view(w: Workflow) -> (Seq<char>, Seq<(Field, Op, int, Target)>, Target) {
    (w.name@, w.rules@.map_values(|r: Rule| rule_view(r)), target(w.fallback))
}

proof fn lemma_split_commas_nonempty(s: Seq<char>)
    ensures
        split_commas(s).len() >= 1,
    decreases s.len(),
{
    crate::text::lemma_find_in_range(s, ',');
    if let Some(i) = find_spec(s, ',') {
        lemma_split_commas_nonempty(s.skip(i + 1));
    }
}

proof fn lemma_rules_error(a: Seq<Seq<char>>, b: Seq<Seq<char>>)
    requires
        rules_spec(a) is Err,
    ensures
        rules_spec(a + b) == rules_spec(a),
    decreases b.len(),
{
    if b.len() > 0 {
        lemma_rules_error(a, b.drop_last());
        assert((a + b).drop_last() =~= a + b.drop_last());
    } else {
        assert(a + b =~= a);
    }
}

impl Workflow {
    /// Reads a workflow such as `px{a<2006:qkq,m>2090:A,rfg}`.
    pub fn from_str(s: &str) -> (r: Result<Workflow, Error>)
        ensures
            r matches Ok(w) ==> workflow_spec(s@) == Ok::<_, (ErrorKind, Seq<char>)>(workflow_view(w)),
            r matches Err(e) ==> workflow_spec(s@) == Err::<(Seq<char>, Seq<(Field, Op, int, Target)>, Target), _>(err_view(e)),
    {
        let (name, rules) = match split_on(s, '{') {
            Some(p) => p,
            None => {
                return Err(Error { kind: ErrorKind::InvalidWorkflow, text: owned(s) });
            },
        };
        let name = owned(name);
        let n = rules.unicode_len();
        if n == 0 || rules.get_char(n - 1) != '}' {
            return Err(Error { kind: ErrorKind::InvalidWorkflow, text: owned(s) });
        }
        let body = rules.substring_char(0, n - 1);
        assert(body@ =~= rules@.drop_last());
        let ghost ps = split_commas(body@);
        let ghost mut done: Seq<Seq<char>> = Seq::empty();
        let mut rules_str = body;
        let mut parsed: Vec<Rule> = Vec::new();
        assert(parsed@.map_values(|r: Rule| rule_view(r)) =~= Seq::empty());
        let ghost outcome = match rules_spec(ps.drop_last()) {
            Err(e) => Err(e),
            Ok(rs) => match consequent_spec(ps.last()) {
                Err(e) => Err(e),
                Ok(t) => Ok((name@, rs, t)),
            },
        };
        assert(workflow_spec(s@) == outcome);
        loop
            invariant
                workflow_spec(s@) == outcome,
                outcome == (match rules_spec(ps.drop_last()) {
                    Err(e) => Err(e),
                    Ok(rs) => match consequent_spec(ps.last()) {
                        Err(e) => Err(e),
                        Ok(t) => Ok((name@, rs, t)),
                    },
                }),
                ps == split_commas(body@),
                ps == done + split_commas(rules_str@),
                rules_spec(done) == Ok::<_, (ErrorKind, Seq<char>)>(parsed@.map_values(|r: Rule| rule_view(r))),
            ensures
                ps == done + split_commas(rules_str@),
                rules_spec(done) == Ok::<_, (ErrorKind, Seq<char>)>(parsed@.map_values(|r: Rule| rule_view(r))),
                find_spec(rules_str@, ',') is None,
            decreases rules_str@.len(),
        {
            match split_on(rules_str, ',') {
                Some((rule, rest)) => {
                    proof {
                        crate::text::lemma_find_in_range(rules_str@, ',');
                        assert(split_commas(rules_str@) == seq![rule@] + split_commas(rest@));
                    }
                    let ghost next = done.push(rule@);
                    assert(next.drop_last() =~= done);
                    match Rule::from_str(rule) {
                        Ok(r) => {
                            let ghost before = parsed@;
                            parsed.push(r);
                            assert(parsed@.map_values(|r: Rule| rule_view(r)) =~= before.map_values(
                                |r: Rule| rule_view(r),
                            ).push(rule_view(r)));
                        },
                        Err(e) => {
                            proof {
                                lemma_split_commas_nonempty(rest@);
                                assert(ps =~= next + split_commas(rest@));
                                assert(ps.drop_last() =~= next + split_commas(rest@).drop_last());
                                lemma_rules_error(next, split_commas(rest@).drop_last());
                            }
                            return Err(e);
                        },
                    }
                    proof {
                        assert(ps =~= next + split_commas(rest@));
                        done = next;
                    }
                    rules_str = rest;
                },
                None => {
                    break;
                },
            }
        }
        assert(split_commas(rules_str@) == seq![rules_str@]);
        assert(ps.drop_last() =~= done);
        assert(ps.last() == rules_str@);
        let fallback = Consequent::from_str(rules_str)?;
        Ok(Workflow { name, rules: parsed, fallback })
    }
}

/// Whether `s` starts with `p`.
pub open spec fn starts_with(s: Seq<char>, p: Seq<char>) -> bool {
    p.len() <= s.len() && s.take(p.len() as int) == p
}

/// A decimal `i64`.
pub open spec fn number_of(s: Seq<char>) -> Option<int> {
    parse_int(s, true, i64::MIN as int, i64::MAX as int)
}

/// The four ratings of a part, parsed.
pub open spec fn ratings_spec(xs: Seq<char>, ms: Seq<char>, a_s: Seq<char>, ss: Seq<char>) -> Result<
    (int, int, int, int),
    (ErrorKind, Seq<char>),
> {
    match number_of(xs) {
        None => Err((ErrorKind::InvalidNumber, xs)),
        Some(x) => match number_of(ms) {
            None => Err((ErrorKind::InvalidNumber, ms)),
            Some(m) => match number_of(a_s) {
                None => Err((ErrorKind::InvalidNumber, a_s)),
                Some(a) => match number_of(ss) {
                    None => Err((ErrorKind::InvalidNumber, ss)),
                    Some(v) => Ok((x, m, a, v)),
                },
            },
        },
    }
}

/// What `Part::from_str` makes of `s`: `{x=..,m=..,a=..,s=..}`, the error
/// naming the first piece that is missing.
pub open spec fn part_spec(s: Seq<char>) -> Result<(int, int, int, int), (ErrorKind, Seq<char>)> {
    if !starts_with(s, seq!['{', 'x', '=']) {
        Err((ErrorKind::MissingX, s))
    } else {
        let r1 = s.skip(3);
        match find_spec(r1, ',') {
            None => Err((ErrorKind::MissingFirstComma, s)),
            Some(i1) => {
                let r2 = r1.skip(i1 + 1);
                if !starts_with(r2, seq!['m', '=']) {
                    Err((ErrorKind::MissingM, s))
                } else {
                    let r3 = r2.skip(2);
                    match find_spec(r3, ',') {
                        None => Err((ErrorKind::MissingSecondComma, s)),
                        Some(i2) => {
                            let r4 = r3.skip(i2 + 1);
                            if !starts_with(r4, seq!['a', '=']) {
                                Err((ErrorKind::MissingA, s))
                            } else {
                                let r5 = r4.skip(2);
                                match find_spec(r5, ',') {
                                    None => Err((ErrorKind::MissingThirdComma, s)),
                                    Some(i3) => {
                                        let r6 = r5.skip(i3 + 1);
                                        if !starts_with(r6, seq!['s', '=']) {
                                            Err((ErrorKind::MissingS, s))
                                        } else {
                                            let r7 = r6.skip(2);
                                            match find_spec(r7, '}') {
                                                None => Err((ErrorKind::MissingClosingBrace, s)),
                                                Some(i4) => if r7.skip(i4 + 1).len() != 0 {
                                                    Err((ErrorKind::TrailingChars, s))
                                                } else {
                                                    ratings_spec(r1.take(i1), r3.take(i2), r5.take(i3), r7.take(i4))
                                                },
                                            }
                                        }
                                    },
                                }
                            }
                        },
                    }
                }
            },
        }
    }
}

/// A parsed part as its ratings or an error view.
pub open spec fn part_res(r: Result<Part, Error>) -> Result<(int, int, int, int), (ErrorKind, Seq<char>)> {
    match r {
        Ok(p) => Ok((p.x as int, p.m as int, p.a as int, p.s as int)),
        Err(e) => Err(err_view(e)),
    }
}

/// Reads a rating.
fn rating(s: &str) -> (r: Result<i64, Error>)
    ensures
        r matches Ok(v) ==> number_of(s@) == Some(v as int),
        r matches Err(e) ==> number_of(s@) is None && err_view(e) == (ErrorKind::InvalidNumber, s@),
{
    match parse_i64(s) {
        Some(v) => Ok(v),
        None => Err(Error { kind: ErrorKind::InvalidNumber, text: owned(s) }),
    }
}

impl Part {
    /// Reads a part such as `{x=787,m=2655,a=1222,s=2876}`.
    pub fn from_str(input: &str) -> (r: Result<Part, Error>)
        ensures
            part_res(r) == part_spec(input@),
    {
        let px = "{x=";
        let pm = "m=";
        let pa = "a=";
        let ps = "s=";
        proof {
            reveal_strlit("{x=");
            reveal_strlit("m=");
            reveal_strlit("a=");
            reveal_strlit("s=");
            assert(px@ =~= seq!['{', 'x', '=']);
            assert(pm@ =~= seq!['m', '=']);
            assert(pa@ =~= seq!['a', '=']);
            assert(ps@ =~= seq!['s', '=']);
        }
        let err = |k: ErrorKind| -> (e: Error)
            ensures
                err_view(e) == (k, input@),
            { Error { kind: k, text: owned(input) } };
        let rest = match strip_prefix(input, px) {
            Some(t) => t,
            None => {
                return Err(err(ErrorKind::MissingX));
            },
        };
        let (x, rest) = match split_on(rest, ',') {
            Some(p) => p,
            None => {
                return Err(err(ErrorKind::MissingFirstComma));
            },
        };
        let rest = match strip_prefix(rest, pm) {
            Some(t) => t,
            None => {
                return Err(err(ErrorKind::MissingM));
            },
        };
        let (m, rest) = match split_on(rest, ',') {
            Some(p) => p,
            None => {
                return Err(err(ErrorKind::MissingSecondComma));
            },
        };
        let rest = match strip_prefix(rest, pa) {
            Some(t) => t,
            None => {
                return Err(err(ErrorKind::MissingA));
            },
        };
        let (a, rest) = match split_on(rest, ',') {
            Some(p) => p,
            None => {
                return Err(err(ErrorKind::MissingThirdComma));
            },
        };
        let rest = match strip_prefix(rest, ps) {
            Some(t) => t,
            None => {
                return Err(err(ErrorKind::MissingS));
            },
        };
        let (s, rest) = match split_on(rest, '}') {
            Some(p) => p,
            None => {
                return Err(err(ErrorKind::MissingClosingBrace));
            },
        };
        if rest.unicode_len() != 0 {
            return Err(err(ErrorKind::TrailingChars));
        }
        let x = rating(x)?;
        let m = rating(m)?;
        let a = rating(a)?;
        let s = rating(s)?;
        Ok(Part { x, m, a, s })
    }
}

/// What `read_input` makes of the first `n` lines: the workflows, the
/// parts, and whether the blank line before the parts has been passed; or
/// the first error.
pub open spec fn read_spec(lines: Seq<Seq<char>>, n: nat) -> Result<
    (Seq<(Seq<char>, Seq<(Field, Op, int, Target)>, Target)>, Seq<(int, int, int, int)>, bool),
    (ErrorKind, Seq<char>),
>
    decreases n,
{
    if n == 0 {
        Ok((Seq::empty(), Seq::empty(), false))
    } else {
        match read_spec(lines, (n - 1) as nat) {
            Err(e) => Err(e),
            Ok((ws, ps, reading_parts)) => {
                let t = trimmed(lines[n - 1]);
                if t.len() == 0 {
                    Ok((ws, ps, true))
                } else if reading_parts {
                    match part_spec(t) {
                        Err(e) => Err(e),
                        Ok(p) => Ok((ws, ps.push(p), true)),
                    }
                } else {
                    match workflow_spec(t) {
                        Err(e) => Err(e),
                        Ok(w) => Ok((ws.push(w), ps, false)),
                    }
                }
            },
        }
    }
}

/// The ratings of each part.
pub open spec fn part_views(ps: Seq<Part>) -> Seq<(int, int, int, int)> {
    ps.map_values(|p: Part| (p.x as int, p.m as int, p.a as int, p.s as int))
}

proof fn lemma_read_error(lines: Seq<Seq<char>>, k: nat, n: nat)
    requires
        k <= n,
        read_spec(lines, k) is Err,
    ensures
        read_spec(lines, n) == read_spec(lines, k),
    decreases n - k,
{
    if k < n {
        lemma_read_error(lines, k, (n - 1) as nat);
    }
}

/// Reads the workflows, a blank line, then the parts; every line is
/// trimmed and other blank lines are skipped.
pub fn read_input(lines: &Vec<String>) -> (r: Result<(Machine, Vec<Part>), Error>)
    ensures
        r matches Ok((machine, parts)) ==> read_spec(crate::text::views_of(lines@), lines.len() as nat) matches Ok(
            (ws, ps, _),
        ) && machine.workflows@.map_values(|w: Workflow| workflow_view(w)) == ws && part_views(parts@) == ps,
        r matches Err(e) ==> read_spec(crate::text::views_of(lines@), lines.len() as nat) == Err::<
            (Seq<(Seq<char>, Seq<(Field, Op, int, Target)>, Target)>, Seq<(int, int, int, int)>, bool),
            (ErrorKind, Seq<char>),
        >(err_view(e)),
{
    let ghost ls = crate::text::views_of(lines@);
    let mut machine = Machine::new();
    let mut parts: Vec<Part> = Vec::new();
    let mut reading_parts = false;
    let n = lines.len();
    let mut k: usize = 0;
    assert(machine.workflows@.map_values(|w: Workflow| workflow_view(w)) =~= Seq::empty());
    assert(part_views(parts@) =~= Seq::empty());
    while k < n
        invariant
            n == lines.len(),
            ls == crate::text::views_of(lines@),
            k <= n,
            read_spec(ls, k as nat) == Ok::<_, (ErrorKind, Seq<char>)>(
                (machine.workflows@.map_values(|w: Workflow| workflow_view(w)), part_views(parts@), reading_parts),
            ),
        decreases n - k,
    {
        let line = trim(lines[k].as_str());
        assert(ls[k as int] == lines@[k as int]@);
        if line.unicode_len() == 0 {
            reading_parts = true;
        } else if reading_parts {
            match Part::from_str(line) {
                Ok(p) => {
                    let ghost before = parts@;
                    parts.push(p);
                    assert(part_views(parts@) =~= part_views(before).push((p.x as int, p.m as int, p.a as int, p.s as int)));
                },
                Err(e) => {
                    proof {
                        lemma_read_error(ls, (k + 1) as nat, n as nat);
                    }
                    return Err(e);
                },
            }
        } else {
            match Workflow::from_str(line) {
                Ok(w) => {
                    let ghost before = machine.workflows@;
                    let ghost wv = workflow_view(w);
                    machine.workflows.push(w);
                    assert(machine.workflows@.map_values(|w: Workflow| workflow_view(w)) =~= before.map_values(
                        |w: Workflow| workflow_view(w),
                    ).push(wv));
                },
                Err(e) => {
                    proof {
                        lemma_read_error(ls, (k + 1) as nat, n as nat);
                    }
                    return Err(e);
                },
            }
        }
        k = k + 1;
    }
    Ok((machine, parts))
}


/// The sum of `f(i)` for `i` from `lo` to `hi`.
pub open spec fn sum_range(lo: int, hi: int, f: spec_fn(int) -> int) -> int
    decreases hi - lo + 1,
{
    if hi < lo {
        0
    } else {
        sum_range(lo, hi - 1, f) + f(hi)
    }
}

proof fn lemma_sum_split(lo: int, mid: int, hi: int, f: spec_fn(int) -> int)
    requires
        lo - 1 <= mid <= hi,
    ensures
        sum_range(lo, hi, f) == sum_range(lo, mid, f) + sum_range(mid + 1, hi, f),
    decreases hi - mid,
{
    if hi > mid {
        lemma_sum_split(lo, mid, hi - 1, f);
    }
}

proof fn lemma_sum_cong(lo: int, hi: int, f: spec_fn(int) -> int, g: spec_fn(int) -> int)
    requires
        forall|i: int| lo <= i <= hi ==> #[trigger] f(i) == g(i),
    ensures
        sum_range(lo, hi, f) == sum_range(lo, hi, g),
    decreases hi - lo + 1,
{
    if hi >= lo {
        lemma_sum_cong(lo, hi - 1, f, g);
    }
}

proof fn lemma_sum_add(lo: int, hi: int, f: spec_fn(int) -> int, g: spec_fn(int) -> int, h: spec_fn(int) -> int)
    requires
        forall|i: int| lo <= i <= hi ==> #[trigger] h(i) == f(i) + g(i),
    ensures
        sum_range(lo, hi, h) == sum_range(lo, hi, f) + sum_range(lo, hi, g),
    decreases hi - lo + 1,
{
    if hi >= lo {
        lemma_sum_add(lo, hi - 1, f, g, h);
    }
}

proof fn lemma_sum_const(lo: int, hi: int, f: spec_fn(int) -> int, c: int)
    requires
        lo <= hi + 1,
        forall|i: int| lo <= i <= hi ==> #[trigger] f(i) == c,
    ensures
        sum_range(lo, hi, f) == c * (hi + 1 - lo),
    decreases hi - lo + 1,
{
    if hi >= lo {
        lemma_sum_const(lo, hi - 1, f, c);
        assert(c * (hi - lo) + c == c * (hi + 1 - lo)) by (nonlinear_arith);
    } else {
        assert(c * (hi + 1 - lo) == 0) by (nonlinear_arith)
            requires
                hi + 1 - lo == 0,
        ;
    }
}

/// The part with the given ratings.
pub open spec fn point(x: int, m: int, a: int, s: int) -> Part {
    Part { x: x as i64, m: m as i64, a: a as i64, s: s as i64 }
}

/// Every range of `b` holds only ratings that an `i64` can hold.
pub open spec fn box_i64(b: Box4) -> bool {
    &&& 0 <= b.x.0 && b.x.1 <= i64::MAX
    &&& 0 <= b.m.0 && b.m.1 <= i64::MAX
    &&& 0 <= b.a.0 && b.a.1 <= i64::MAX
    &&& 0 <= b.s.0 && b.s.1 <= i64::MAX
}

/// `g` summed over the `s` ratings of `b`, the others fixed.
pub open spec fn sum_s(b: Box4, g: spec_fn(Part) -> int, x: int, m: int, a: int) -> int {
    sum_range(b.s.0, b.s.1, |s: int| g(point(x, m, a, s)))
}

/// `g` summed over the `a` and `s` ratings of `b`.
pub open spec fn sum_as(b: Box4, g: spec_fn(Part) -> int, x: int, m: int) -> int {
    sum_range(b.a.0, b.a.1, |a: int| sum_s(b, g, x, m, a))
}

/// `g` summed over the `m`, `a` and `s` ratings of `b`.
pub open spec fn sum_mas(b: Box4, g: spec_fn(Part) -> int, x: int) -> int {
    sum_range(b.m.0, b.m.1, |m: int| sum_as(b, g, x, m))
}

/// `g` summed over every part whose ratings lie in `b`.
pub open spec fn box_sum(b: Box4, g: spec_fn(Part) -> int) -> int {
    sum_range(b.x.0, b.x.1, |x: int| sum_mas(b, g, x))
}

/// Sums over a box agree for functions that agree on the box.
proof fn lemma_box_cong(b: Box4, g1: spec_fn(Part) -> int, g2: spec_fn(Part) -> int)
    requires
        box_i64(b),
        forall|p: Part| in_box(b, p) ==> #[trigger] g1(p) == g2(p),
    ensures
        box_sum(b, g1) == box_sum(b, g2),
{
    assert forall|x: int| b.x.0 <= x <= b.x.1 implies #[trigger] sum_mas(b, g1, x) == sum_mas(b, g2, x) by {
        assert forall|m: int| b.m.0 <= m <= b.m.1 implies #[trigger] sum_as(b, g1, x, m) == sum_as(b, g2, x, m) by {
            assert forall|a: int| b.a.0 <= a <= b.a.1 implies #[trigger] sum_s(b, g1, x, m, a) == sum_s(b, g2, x, m, a) by {
                assert forall|s: int| b.s.0 <= s <= b.s.1 implies #[trigger] g1(point(x, m, a, s)) == g2(point(x, m, a, s)) by {
                    assert(in_box(b, point(x, m, a, s)));
                }
                lemma_sum_cong(b.s.0, b.s.1, |s: int| g1(point(x, m, a, s)), |s: int| g2(point(x, m, a, s)));
            }
            lemma_sum_cong(b.a.0, b.a.1, |a: int| sum_s(b, g1, x, m, a), |a: int| sum_s(b, g2, x, m, a));
        }
        lemma_sum_cong(b.m.0, b.m.1, |m: int| sum_as(b, g1, x, m), |m: int| sum_as(b, g2, x, m));
    }
    lemma_sum_cong(b.x.0, b.x.1, |x: int| sum_mas(b, g1, x), |x: int| sum_mas(b, g2, x));
}

/// A constant summed over a non-empty box is the constant times the
/// number of its parts.
proof fn lemma_box_const(b: Box4, g: spec_fn(Part) -> int, c: int)
    requires
        b.x.0 <= b.x.1 && b.m.0 <= b.m.1 && b.a.0 <= b.a.1 && b.s.0 <= b.s.1,
        forall|p: Part| #[trigger] g(p) == c,
    ensures
        box_sum(b, g) == c * volume(b),
{
    let (p, q, r, t) = (span_len(b.x), span_len(b.m), span_len(b.a), span_len(b.s));
    assert forall|x: int| b.x.0 <= x <= b.x.1 implies #[trigger] sum_mas(b, g, x) == c * t * r * q by {
        assert forall|m: int| b.m.0 <= m <= b.m.1 implies #[trigger] sum_as(b, g, x, m) == c * t * r by {
            assert forall|a: int| b.a.0 <= a <= b.a.1 implies #[trigger] sum_s(b, g, x, m, a) == c * t by {
                lemma_sum_const(b.s.0, b.s.1, |s: int| g(point(x, m, a, s)), c);
            }
            lemma_sum_const(b.a.0, b.a.1, |a: int| sum_s(b, g, x, m, a), c * t);
        }
        lemma_sum_const(b.m.0, b.m.1, |m: int| sum_as(b, g, x, m), c * t * r);
    }
    lemma_sum_const(b.x.0, b.x.1, |x: int| sum_mas(b, g, x), c * t * r * q);
    assert(c * t * r * q * p == c * (p * q * r * t)) by (nonlinear_arith);
}

proof fn lemma_as_same(b: Box4, c: Box4, g: spec_fn(Part) -> int, x: int, m: int)
    requires
        b.a == c.a && b.s == c.s,
    ensures
        sum_as(b, g, x, m) == sum_as(c, g, x, m),
{
    assert forall|a: int| b.a.0 <= a <= b.a.1 implies #[trigger] sum_s(b, g, x, m, a) == sum_s(c, g, x, m, a) by {}
    lemma_sum_cong(b.a.0, b.a.1, |a: int| sum_s(b, g, x, m, a), |a: int| sum_s(c, g, x, m, a));
}

proof fn lemma_mas_same(b: Box4, c: Box4, g: spec_fn(Part) -> int, x: int)
    requires
        b.m == c.m && b.a == c.a && b.s == c.s,
    ensures
        sum_mas(b, g, x) == sum_mas(c, g, x),
{
    assert forall|m: int| b.m.0 <= m <= b.m.1 implies #[trigger] sum_as(b, g, x, m) == sum_as(c, g, x, m) by {
        lemma_as_same(b, c, g, x, m);
    }
    lemma_sum_cong(b.m.0, b.m.1, |m: int| sum_as(b, g, x, m), |m: int| sum_as(c, g, x, m));
}

/// Cutting the range of one field in two cuts a sum over the box in two.
proof fn lemma_box_split(b: Box4, f: Field, mid: int, g: spec_fn(Part) -> int)
    requires
        field_span(b, f).0 - 1 <= mid <= field_span(b, f).1,
    ensures
        box_sum(b, g) == box_sum(with_span(b, f, (field_span(b, f).0, mid)), g) + box_sum(
            with_span(b, f, (mid + 1, field_span(b, f).1)),
            g,
        ),
{
    let (lo, hi) = field_span(b, f);
    let b1 = with_span(b, f, (lo, mid));
    let b2 = with_span(b, f, (mid + 1, hi));
    match f {
        Field::X => {
            lemma_sum_split(lo, mid, hi, |x: int| sum_mas(b, g, x));
            assert forall|x: int| lo <= x <= mid implies #[trigger] sum_mas(b, g, x) == sum_mas(b1, g, x) by {
                lemma_mas_same(b, b1, g, x);
            }
            lemma_sum_cong(lo, mid, |x: int| sum_mas(b, g, x), |x: int| sum_mas(b1, g, x));
            assert forall|x: int| mid + 1 <= x <= hi implies #[trigger] sum_mas(b, g, x) == sum_mas(b2, g, x) by {
                lemma_mas_same(b, b2, g, x);
            }
            lemma_sum_cong(mid + 1, hi, |x: int| sum_mas(b, g, x), |x: int| sum_mas(b2, g, x));
        },
        Field::M => {
            assert forall|x: int| b.x.0 <= x <= b.x.1 implies #[trigger] sum_mas(b, g, x) == sum_mas(b1, g, x) + sum_mas(
                b2,
                g,
                x,
            ) by {
                lemma_sum_split(lo, mid, hi, |m: int| sum_as(b, g, x, m));
                assert forall|m: int| lo <= m <= mid implies #[trigger] sum_as(b, g, x, m) == sum_as(b1, g, x, m) by {
                    lemma_as_same(b, b1, g, x, m);
                }
                lemma_sum_cong(lo, mid, |m: int| sum_as(b, g, x, m), |m: int| sum_as(b1, g, x, m));
                assert forall|m: int| mid + 1 <= m <= hi implies #[trigger] sum_as(b, g, x, m) == sum_as(b2, g, x, m) by {
                    lemma_as_same(b, b2, g, x, m);
                }
                lemma_sum_cong(mid + 1, hi, |m: int| sum_as(b, g, x, m), |m: int| sum_as(b2, g, x, m));
            }
            lemma_sum_add(b.x.0, b.x.1, |x: int| sum_mas(b1, g, x), |x: int| sum_mas(b2, g, x), |x: int| sum_mas(b, g, x));
        },
        Field::A => {
            assert forall|x: int| b.x.0 <= x <= b.x.1 implies #[trigger] sum_mas(b, g, x) == sum_mas(b1, g, x) + sum_mas(
                b2,
                g,
                x,
            ) by {
                assert forall|m: int| b.m.0 <= m <= b.m.1 implies #[trigger] sum_as(b, g, x, m) == sum_as(b1, g, x, m)
                    + sum_as(b2, g, x, m) by {
                    lemma_sum_split(lo, mid, hi, |a: int| sum_s(b, g, x, m, a));
                    assert forall|a: int| lo <= a <= mid implies #[trigger] sum_s(b, g, x, m, a) == sum_s(b1, g, x, m, a) by {}
                    lemma_sum_cong(lo, mid, |a: int| sum_s(b, g, x, m, a), |a: int| sum_s(b1, g, x, m, a));
                    assert forall|a: int| mid + 1 <= a <= hi implies #[trigger] sum_s(b, g, x, m, a) == sum_s(b2, g, x, m, a) by {}
                    lemma_sum_cong(mid + 1, hi, |a: int| sum_s(b, g, x, m, a), |a: int| sum_s(b2, g, x, m, a));
                }
                lemma_sum_add(b.m.0, b.m.1, |m: int| sum_as(b1, g, x, m), |m: int| sum_as(b2, g, x, m), |m: int| sum_as(b, g, x, m));
            }
            lemma_sum_add(b.x.0, b.x.1, |x: int| sum_mas(b1, g, x), |x: int| sum_mas(b2, g, x), |x: int| sum_mas(b, g, x));
        },
        Field::S => {
            assert forall|x: int| b.x.0 <= x <= b.x.1 implies #[trigger] sum_mas(b, g, x) == sum_mas(b1, g, x) + sum_mas(
                b2,
                g,
                x,
            ) by {
                assert forall|m: int| b.m.0 <= m <= b.m.1 implies #[trigger] sum_as(b, g, x, m) == sum_as(b1, g, x, m)
                    + sum_as(b2, g, x, m) by {
                    assert forall|a: int| b.a.0 <= a <= b.a.1 implies #[trigger] sum_s(b, g, x, m, a) == sum_s(b1, g, x, m, a)
                        + sum_s(b2, g, x, m, a) by {
                        lemma_sum_split(lo, mid, hi, |s: int| g(point(x, m, a, s)));
                    }
                    lemma_sum_add(b.a.0, b.a.1, |a: int| sum_s(b1, g, x, m, a), |a: int| sum_s(b2, g, x, m, a), |a: int| sum_s(b, g, x, m, a));
                }
                lemma_sum_add(b.m.0, b.m.1, |m: int| sum_as(b1, g, x, m), |m: int| sum_as(b2, g, x, m), |m: int| sum_as(b, g, x, m));
            }
            lemma_sum_add(b.x.0, b.x.1, |x: int| sum_mas(b1, g, x), |x: int| sum_mas(b2, g, x), |x: int| sum_mas(b, g, x));
        },
    }
}

/// Every rule of every workflow compares with an amount that is not
/// negative.
pub open spec fn amounts_ok(wfs: Map<Seq<char>, Workflow>) -> bool {
    forall|name: Seq<char>, k: int| wfs.contains_key(name) && 0 <= k < wfs[name].rules@.len()
        ==> #[trigger] wfs[name].rules@[k].condition_amount >= 0
}

/// 1 when part `p`, entering workflow `state`, ends accepted within `fuel`
/// workflows; else 0.
pub open spec fn accepted(wfs: Map<Seq<char>, Workflow>, state: Seq<char>, p: Part, fuel: nat) -> int {
    if run(wfs, state, p, fuel) == Ok::<bool, (ErrorKind, Seq<char>)>(true) {
        1
    } else {
        0
    }
}

/// The same for part `p` sent to consequent `c`.
pub open spec fn accepted_by(wfs: Map<Seq<char>, Workflow>, c: Consequent, p: Part, fuel: nat) -> int {
    match c {
        Consequent::Accept => 1,
        Consequent::Reject => 0,
        Consequent::Move(dest) => if fuel == 0 {
            0
        } else {
            accepted(wfs, dest@, p, (fuel - 1) as nat)
        },
    }
}

/// What `count_possibilities_internal` computes is a count: the number of
/// parts with ratings in the box, counted one by one, that end accepted
/// when they enter workflow `state`, for workflows whose rules compare with
/// amounts that are not negative and ratings that an `i64` holds.
pub proof fn lemma_count_in_counts_accepted(wfs: Map<Seq<char>, Workflow>, state: Seq<char>, b: Box4, depth: nat)
    requires
        amounts_ok(wfs),
        box_ok(b),
        box_i64(b),
        count_in(wfs, state, b, depth) is Some,
    ensures
        count_in(wfs, state, b, depth) == Some(box_sum(b, |p: Part| accepted(wfs, state, p, depth))),
    decreases depth, 2nat, 0nat,
{
    let w = wfs[state];
    lemma_count_rules_sum(wfs, w, 0, b, depth);
    lemma_box_cong(
        b,
        |p: Part| accepted(wfs, state, p, depth),
        |p: Part| accepted_by(wfs, first_consequent(w, p, 0), p, depth),
    );
}

proof fn lemma_count_rules_sum(wfs: Map<Seq<char>, Workflow>, w: Workflow, k: nat, b: Box4, depth: nat)
    requires
        amounts_ok(wfs),
        forall|i: int| 0 <= i < w.rules@.len() ==> (#[trigger] w.rules@[i]).condition_amount >= 0,
        box_ok(b),
        box_i64(b),
        count_rules(wfs, w, k, b, depth) is Some,
    ensures
        count_rules(wfs, w, k, b, depth) == Some(
            box_sum(b, |p: Part| accepted_by(wfs, first_consequent(w, p, k), p, depth)),
        ),
    decreases depth, 1nat, w.rules@.len() - k,
{
    let g = |p: Part| accepted_by(wfs, first_consequent(w, p, k), p, depth);
    if k >= w.rules@.len() {
        lemma_count_consequent_sum(wfs, w.fallback, b, depth);
        lemma_box_cong(b, |p: Part| accepted_by(wfs, w.fallback, p, depth), g);
    } else {
        let rule = w.rules@[k as int];
        lemma_split_box(b, rule);
        let parts = split_box(b, rule);
        let gc = |p: Part| accepted_by(wfs, rule.consequent, p, depth);
        let gn = |p: Part| accepted_by(wfs, first_consequent(w, p, k + 1), p, depth);
        assert forall|p: Part| in_opt_box(parts.0, p) implies #[trigger] g(p) == gc(p) by {
            lemma_split_points(b, rule, p);
        }
        assert forall|p: Part| in_opt_box(parts.1, p) implies #[trigger] g(p) == gn(p) by {
            lemma_split_points(b, rule, p);
        }
        let f = rule.condition_field;
        let (lo, hi) = field_span(b, f);
        let n = rule.condition_amount as u64 as int;
        if let Some(c1) = parts.0 {
            lemma_count_consequent_sum(wfs, rule.consequent, c1, depth);
            assert forall|p: Part| in_box(c1, p) implies #[trigger] g(p) == gc(p) by {
                assert(in_opt_box(parts.0, p));
            }
            lemma_box_cong(c1, g, gc);
        }
        if let Some(c2) = parts.1 {
            lemma_count_rules_sum(wfs, w, k + 1, c2, depth);
            assert forall|p: Part| in_box(c2, p) implies #[trigger] g(p) == gn(p) by {
                assert(in_opt_box(parts.1, p));
            }
            lemma_box_cong(c2, g, gn);
        }
        if parts.0 is Some && parts.1 is Some {
            match rule.condition_op {
                Op::LessThan => {
                    lemma_box_split(b, f, n - 1, g);
                },
                Op::GreaterThan => {
                    lemma_box_split(b, f, n, g);
                },
            }
        }
    }
}

proof fn lemma_count_consequent_sum(wfs: Map<Seq<char>, Workflow>, c: Consequent, b: Box4, depth: nat)
    requires
        amounts_ok(wfs),
        box_ok(b),
        box_i64(b),
        count_consequent(wfs, c, b, depth) is Some,
    ensures
        count_consequent(wfs, c, b, depth) == Some(box_sum(b, |p: Part| accepted_by(wfs, c, p, depth))),
    decreases depth, 0nat, 0nat,
{
    match c {
        Consequent::Accept => {
            lemma_box_const(b, |p: Part| accepted_by(wfs, c, p, depth), 1);
        },
        Consequent::Reject => {
            lemma_box_const(b, |p: Part| accepted_by(wfs, c, p, depth), 0);
        },
        Consequent::Move(dest) => {
            lemma_count_in_counts_accepted(wfs, dest@, b, (depth - 1) as nat);
            lemma_box_cong(b, |p: Part| accepted(wfs, dest@, p, (depth - 1) as nat), |p: Part| accepted_by(wfs, c, p, depth));
        },
    }
}

/// A consequent sends parts only to a workflow of smaller rank than `r`.
pub open spec fn sends_below(c: Consequent, rank: spec_fn(Seq<char>) -> nat, r: nat) -> bool {
    match c {
        Consequent::Move(dest) => rank(dest@) < r,
        _ => true,
    }
}

/// `rank` orders the workflows: a workflow sends parts only to workflows
/// of smaller rank. Such a rank exists exactly when no part can loop.
pub open spec fn workflows_ranked(wfs: Map<Seq<char>, Workflow>, rank: spec_fn(Seq<char>) -> nat) -> bool {
    &&& forall|name: Seq<char>, k: int| wfs.contains_key(name) && 0 <= k < wfs[name].rules@.len() ==> sends_below(
        (#[trigger] wfs[name].rules@[k]).consequent,
        rank,
        rank(name),
    )
    &&& forall|name: Seq<char>| #[trigger] wfs.contains_key(name) ==> sends_below(wfs[name].fallback, rank, rank(name))
}

/// With the workflows ranked, the depth of moves followed does not matter
/// once it exceeds the rank of the workflow counted from: the count is the
/// same for every such depth.
pub proof fn lemma_count_depth_enough(
    wfs: Map<Seq<char>, Workflow>,
    rank: spec_fn(Seq<char>) -> nat,
    state: Seq<char>,
    b: Box4,
    d1: nat,
    d2: nat,
)
    requires
        workflows_ranked(wfs, rank),
        d1 > rank(state),
        d2 > rank(state),
    ensures
        count_in(wfs, state, b, d1) == count_in(wfs, state, b, d2),
    decreases rank(state), 2nat, 0nat,
{
    if wfs.contains_key(state) {
        lemma_count_rules_depth(wfs, rank, state, 0, b, d1, d2);
    }
}

proof fn lemma_count_rules_depth(
    wfs: Map<Seq<char>, Workflow>,
    rank: spec_fn(Seq<char>) -> nat,
    name: Seq<char>,
    k: nat,
    b: Box4,
    d1: nat,
    d2: nat,
)
    requires
        workflows_ranked(wfs, rank),
        wfs.contains_key(name),
        d1 > rank(name),
        d2 > rank(name),
    ensures
        count_rules(wfs, wfs[name], k, b, d1) == count_rules(wfs, wfs[name], k, b, d2),
    decreases rank(name), 1nat, wfs[name].rules@.len() - k,
{
    let w = wfs[name];
    if k >= w.rules@.len() {
        lemma_count_consequent_depth(wfs, rank, rank(name), w.fallback, b, d1, d2);
    } else {
        let rule = w.rules@[k as int];
        assert(sends_below(rule.consequent, rank, rank(name)));
        let parts = split_box(b, rule);
        if let Some(c) = parts.0 {
            lemma_count_consequent_depth(wfs, rank, rank(name), rule.consequent, c, d1, d2);
        }
        if let Some(c2) = parts.1 {
            lemma_count_rules_depth(wfs, rank, name, k + 1, c2, d1, d2);
        }
    }
}

proof fn lemma_count_consequent_depth(
    wfs: Map<Seq<char>, Workflow>,
    rank: spec_fn(Seq<char>) -> nat,
    r: nat,
    c: Consequent,
    b: Box4,
    d1: nat,
    d2: nat,
)
    requires
        workflows_ranked(wfs, rank),
        sends_below(c, rank, r),
        d1 > r,
        d2 > r,
    ensures
        count_consequent(wfs, c, b, d1) == count_consequent(wfs, c, b, d2),
    decreases r, 0nat, 0nat,
{
    if let Consequent::Move(dest) = c {
        lemma_count_depth_enough(wfs, rank, dest@, b, (d1 - 1) as nat, (d2 - 1) as nat);
    }
}

} // verus!
