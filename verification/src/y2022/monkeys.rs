//! Monkey in the middle: monkeys pass items around by worry level; the
//! answer is the product of the two largest numbers of inspections.
use vstd::prelude::*;

verus! {

/// What a monkey does to the worry level of an item it inspects.
#[derive(Clone, Copy, PartialEq, Eq, Structural)]
pub enum Operation {
    /// Adds a constant.
    Add(i64),
    /// Multiplies by a constant.
    Mul(i64),
    /// Multiplies the level by itself.
    Square,
}

/// How worry levels are kept down after an inspection.
#[derive(Clone, Copy, PartialEq, Eq, Structural)]
pub enum Relief {
    /// Part one: divide by three.
    DivideBy3,
    /// Part two: keep the remainder modulo the product of all the tests.
    Modulo(i64),
}

/// A monkey as the puzzle describes it.
pub struct MonkeyInput {
    pub items: Vec<i64>,
    pub op: Operation,
    pub test: i64,
    pub yes: usize,
    pub no: usize,
}

/// A monkey during the game: its queue of items, its rule, and how many
/// items it has inspected.
pub struct Monkey {
    pub items: Vec<i64>,
    pub op: Operation,
    pub test: i64,
    pub yes: usize,
    pub no: usize,
    pub inspected: i64,
}

/// The mathematical view of a monkey.
pub struct MonkeyView {
    pub items: Seq<int>,
    pub op: Operation,
    pub test: int,
    pub yes: int,
    pub no: int,
    pub inspected: int,
}

impl Monkey {
    pub open spec fn view(&self) -> MonkeyView {
        MonkeyView {
            items: self.items@.map_values(|x: i64| x as int),
            op: self.op,
            test: self.test as int,
            yes: self.yes as int,
            no: self.no as int,
            inspected: self.inspected as int,
        }
    }
}

/// The views of a troop of monkeys.
pub open spec fn troop(ms: Seq<Monkey>) -> Seq<MonkeyView> {
    ms.map_values(|m: Monkey| m@)
}

/// The worry level after the operation.
pub open spec fn operate(op: Operation, old: int) -> int {
    match op {
        Operation::Add(c) => old + c,
        Operation::Mul(c) => old * c,
        Operation::Square => old * old,
    }
}

/// The worry level after relief.
pub open spec fn relieve(relief: Relief, w: int) -> int {
    match relief {
        Relief::DivideBy3 => w / 3,
        Relief::Modulo(m) => w % (m as int),
    }
}

/// Whether a value fits in an `i64`.
pub open spec fn fits(x: int) -> bool {
    i64::MIN <= x <= i64::MAX
}

/// Whether an operation keeps non-negative levels non-negative.
pub open spec fn op_ok(op: Operation) -> bool {
    match op {
        Operation::Add(c) => c >= 0,
        Operation::Mul(c) => c >= 0,
        Operation::Square => true,
    }
}

/// Whether a relief rule can be applied.
pub open spec fn relief_ok(relief: Relief) -> bool {
    match relief {
        Relief::DivideBy3 => true,
        Relief::Modulo(m) => m > 0,
    }
}

/// A well-formed troop: each monkey throws to two other monkeys of the
/// troop, tests with a positive divisor, and holds non-negative levels.
pub open spec fn troop_ok(ms: Seq<MonkeyView>) -> bool {
    forall|i: int|
        0 <= i < ms.len() ==> {
            let m = #[trigger] ms[i];
            &&& m.test > 0
            &&& 0 <= m.yes < ms.len()
            &&& 0 <= m.no < ms.len()
            &&& m.yes != i
            &&& m.no != i
            &&& op_ok(m.op)
            &&& m.inspected >= 0
            &&& forall|k: int| 0 <= k < m.items.len() ==> m.items[k] >= 0
        }
}

/// Monkey `i` inspects and throws its first item; `None` where a number
/// leaves the range of `i64`.
pub open spec fn throw(ms: Seq<MonkeyView>, i: int, relief: Relief) -> Option<Seq<MonkeyView>> {
    let m = ms[i];
    let w = operate(m.op, m.items[0]);
    if !fits(w) || !fits(m.inspected + 1) {
        None
    } else {
        let r = relieve(relief, w);
        let target = if r % m.test == 0 { m.yes } else { m.no };
        let ms1 = ms.update(i, MonkeyView { items: m.items.drop_first(), inspected: m.inspected + 1, ..m });
        let t = ms1[target];
        Some(ms1.update(target, MonkeyView { items: t.items.push(r), ..t }))
    }
}

/// Monkey `i` throws its first `n` items in turn.
pub open spec fn turn(ms: Seq<MonkeyView>, i: int, relief: Relief, n: nat) -> Option<Seq<MonkeyView>>
    decreases n,
{
    if n == 0 {
        Some(ms)
    } else {
        match throw(ms, i, relief) {
            None => None,
            Some(ms2) => turn(ms2, i, relief, (n - 1) as nat),
        }
    }
}

/// Monkeys `i`, `i + 1`, ... each take their turn, throwing all they hold.
pub open spec fn rest_of_round(ms: Seq<MonkeyView>, i: int, relief: Relief) -> Option<Seq<MonkeyView>>
    decreases ms.len() - i,
{
    if i < 0 || i >= ms.len() {
        Some(ms)
    } else {
        match turn(ms, i, relief, ms[i].items.len()) {
            None => None,
            Some(ms2) => if ms2.len() == ms.len() {
                rest_of_round(ms2, i + 1, relief)
            } else {
                None
            },
        }
    }
}

/// The troop after `rounds` rounds.
pub open spec fn play(ms: Seq<MonkeyView>, rounds: nat, relief: Relief) -> Option<Seq<MonkeyView>>
    decreases rounds,
{
    if rounds == 0 {
        Some(ms)
    } else {
        match rest_of_round(ms, 0, relief) {
            None => None,
            Some(ms2) => play(ms2, (rounds - 1) as nat, relief),
        }
    }
}

proof fn lemma_throw_ok(ms: Seq<MonkeyView>, i: int, relief: Relief)
    requires
        troop_ok(ms),
        relief_ok(relief),
        0 <= i < ms.len(),
        ms[i].items.len() > 0,
        throw(ms, i, relief) is Some,
    ensures
        throw(ms, i, relief) matches Some(ms2) && troop_ok(ms2) && ms2.len() == ms.len()
            && ms2[i].items.len() == ms[i].items.len() - 1,
{
    let m = ms[i];
    let w = operate(m.op, m.items[0]);
    assert(m.items[0] >= 0);
    assert(w >= 0) by (nonlinear_arith)
        requires
            w == operate(m.op, m.items[0]),
            m.items[0] >= 0,
            op_ok(m.op),
    {
    }
    let r = relieve(relief, w);
    assert(r >= 0);
    let ms2 = throw(ms, i, relief)->0;
    assert forall|j: int| 0 <= j < ms2.len() implies {
        let n = #[trigger] ms2[j];
        forall|k: int| 0 <= k < n.items.len() ==> n.items[k] >= 0
    } by {
        assert(ms[j].items.len() >= 0);
    }
}

proof fn lemma_turn_ok(ms: Seq<MonkeyView>, i: int, relief: Relief, n: nat)
    requires
        troop_ok(ms),
        relief_ok(relief),
        0 <= i < ms.len(),
        n <= ms[i].items.len(),
        turn(ms, i, relief, n) is Some,
    ensures
        turn(ms, i, relief, n) matches Some(ms2) && troop_ok(ms2) && ms2.len() == ms.len(),
    decreases n,
{
    if n > 0 {
        lemma_throw_ok(ms, i, relief);
        lemma_turn_ok(throw(ms, i, relief)->0, i, relief, (n - 1) as nat);
    }
}

proof fn lemma_rest_ok(ms: Seq<MonkeyView>, i: int, relief: Relief)
    requires
        troop_ok(ms),
        relief_ok(relief),
        0 <= i,
        rest_of_round(ms, i, relief) is Some,
    ensures
        rest_of_round(ms, i, relief) matches Some(ms2) && troop_ok(ms2) && ms2.len() == ms.len(),
    decreases ms.len() - i,
{
    if i < ms.len() {
        lemma_turn_ok(ms, i, relief, ms[i].items.len());
        lemma_rest_ok(turn(ms, i, relief, ms[i].items.len())->0, i + 1, relief);
    }
}

proof fn lemma_play_ok(ms: Seq<MonkeyView>, rounds: nat, relief: Relief)
    requires
        troop_ok(ms),
        relief_ok(relief),
        play(ms, rounds, relief) is Some,
    ensures
        play(ms, rounds, relief) matches Some(ms2) && troop_ok(ms2) && ms2.len() == ms.len(),
    decreases rounds,
{
    if rounds > 0 {
        lemma_rest_ok(ms, 0, relief);
        lemma_play_ok(rest_of_round(ms, 0, relief)->0, (rounds - 1) as nat, relief);
    }
}

impl Monkey {
    /// A monkey that has inspected nothing yet.
    pub fn new(input: MonkeyInput) -> (r: Monkey)
        ensures
            r.items@ == input.items@,
            r.op == input.op,
            r.test == input.test,
            r.yes == input.yes,
            r.no == input.no,
            r.inspected == 0,
    {
        Monkey {
            items: input.items,
            op: input.op,
            test: input.test,
            yes: input.yes,
            no: input.no,
            inspected: 0,
        }
    }
}

/// Monkey `i` inspects its first item, relieves the worry, and throws the
/// item by its test.
pub fn throw_item(monkeys: &mut Vec<Monkey>, i: usize, relief: Relief)
    requires
        troop_ok(troop(old(monkeys)@)),
        relief_ok(relief),
        i < old(monkeys).len(),
        old(monkeys)@[i as int].items.len() > 0,
        throw(troop(old(monkeys)@), i as int, relief) is Some,
    ensures
        throw(troop(old(monkeys)@), i as int, relief) == Some(troop(final(monkeys)@)),
{
    let ghost ms = troop(monkeys@);
    assert(ms[i as int] == monkeys@[i as int]@);
    let item = monkeys[i].items.remove(0);
    let w = match monkeys[i].op {
        Operation::Add(c) => item + c,
        Operation::Mul(c) => item * c,
        Operation::Square => item * item,
    };
    monkeys[i].inspected = monkeys[i].inspected + 1;
    assert(item >= 0);
    let r = match relief {
        Relief::DivideBy3 => w / 3,
        Relief::Modulo(m) => w % m,
    };
    let target = if r % monkeys[i].test == 0 {
        monkeys[i].yes
    } else {
        monkeys[i].no
    };
    monkeys[target].items.push(r);
    proof {
        let expected = throw(ms, i as int, relief)->0;
        assert(troop(monkeys@).len() == expected.len());
        assert forall|j: int| 0 <= j < expected.len() implies troop(monkeys@)[j] == expected[j] by {
            assert(troop(monkeys@)[j].items =~= expected[j].items);
        }
        assert(troop(monkeys@) =~= expected);
    }
}

/// Monkey `i` throws every item it holds.
pub fn take_turn(monkeys: &mut Vec<Monkey>, i: usize, relief: Relief)
    requires
        troop_ok(troop(old(monkeys)@)),
        relief_ok(relief),
        i < old(monkeys).len(),
        turn(troop(old(monkeys)@), i as int, relief, old(monkeys)@[i as int].items@.len()) is Some,
    ensures
        turn(troop(old(monkeys)@), i as int, relief, old(monkeys)@[i as int].items@.len())
            == Some(troop(final(monkeys)@)),
{
    let ghost start = troop(monkeys@);
    let ghost goal = turn(start, i as int, relief, monkeys@[i as int].items@.len());
    while monkeys[i].items.len() > 0
        invariant
            troop_ok(troop(monkeys@)),
            relief_ok(relief),
            i < monkeys.len(),
            turn(troop(monkeys@), i as int, relief, monkeys@[i as int].items@.len()) == goal,
            goal is Some,
        decreases monkeys@[i as int].items.len(),
    {
        let ghost before = troop(monkeys@);
        assert(before[i as int].items.len() == monkeys@[i as int].items@.len());
        proof {
            lemma_throw_ok(before, i as int, relief);
        }
        throw_item(monkeys, i, relief);
        assert(troop(monkeys@)[i as int].items.len() == monkeys@[i as int].items@.len());
    }
    assert(troop(monkeys@)[i as int].items.len() == 0);
}

/// One round: every monkey, in order, takes its turn.
pub fn play_round(monkeys: &mut Vec<Monkey>, relief: Relief)
    requires
        troop_ok(troop(old(monkeys)@)),
        relief_ok(relief),
        rest_of_round(troop(old(monkeys)@), 0, relief) is Some,
    ensures
        rest_of_round(troop(old(monkeys)@), 0, relief) == Some(troop(final(monkeys)@)),
{
    let ghost goal = rest_of_round(troop(monkeys@), 0, relief);
    let n = monkeys.len();
    let mut i: usize = 0;
    while i < n
        invariant
            troop_ok(troop(monkeys@)),
            relief_ok(relief),
            n == monkeys.len(),
            i <= n,
            rest_of_round(troop(monkeys@), i as int, relief) == goal,
            goal is Some,
        decreases n - i,
    {
        let ghost before = troop(monkeys@);
        assert(before[i as int].items.len() == monkeys@[i as int].items@.len());
        proof {
            lemma_turn_ok(before, i as int, relief, before[i as int].items.len());
        }
        take_turn(monkeys, i, relief);
        i = i + 1;
    }
}

/// Plays `rounds` rounds.
pub fn play_rounds(monkeys: &mut Vec<Monkey>, rounds: u32, relief: Relief)
    requires
        troop_ok(troop(old(monkeys)@)),
        relief_ok(relief),
        play(troop(old(monkeys)@), rounds as nat, relief) is Some,
    ensures
        play(troop(old(monkeys)@), rounds as nat, relief) == Some(troop(final(monkeys)@)),
{
    let ghost goal = play(troop(monkeys@), rounds as nat, relief);
    let mut left: u32 = rounds;
    while left > 0
        invariant
            troop_ok(troop(monkeys@)),
            relief_ok(relief),
            play(troop(monkeys@), left as nat, relief) == goal,
            goal is Some,
        decreases left,
    {
        proof {
            lemma_rest_ok(troop(monkeys@), 0, relief);
        }
        play_round(monkeys, relief);
        left = left - 1;
    }
}

/// The numbers of inspections of a troop.
pub open spec fn counts(ms: Seq<MonkeyView>) -> Seq<int> {
    ms.map_values(|m: MonkeyView| m.inspected)
}

/// `a` holds a largest value of `s` and `b` a largest of the others.
pub open spec fn is_top_two(s: Seq<int>, a: int, b: int) -> bool {
    &&& 0 <= a < s.len()
    &&& 0 <= b < s.len()
    &&& a != b
    &&& forall|k: int| 0 <= k < s.len() ==> s[k] <= s[a]
    &&& forall|k: int| 0 <= k < s.len() && k != a ==> s[k] <= s[b]
}

/// The level of monkey business is one number: whichever two monkeys are
/// taken as the two most active, the product of their counts is the same.
pub proof fn lemma_top_two_unique(s: Seq<int>, a: int, b: int, c: int, d: int)
    requires
        is_top_two(s, a, b),
        is_top_two(s, c, d),
    ensures
        s[a] * s[b] == s[c] * s[d],
{
    assert(s[a] == s[c]);
    if a == c {
        assert(s[b] == s[d]);
    } else if b == c {
        assert(s[a] == s[d]) by {
            assert(s[d] <= s[c]);
            assert(s[a] <= s[d] || d == a);
        }
    } else {
        assert(s[b] == s[d]) by {
            if d == a {
                assert(s[b] <= s[a]);
                assert(s[c] <= s[b]);
            } else {
                assert(s[d] <= s[b]);
                assert(s[b] <= s[d] || b == c);
            }
        }
    }
}

/// The product of the two largest numbers of inspections.
pub fn monkey_business(monkeys: &Vec<Monkey>) -> (r: i64)
    requires
        monkeys.len() >= 2,
        forall|k: int| 0 <= k < monkeys.len() ==> monkeys@[k].inspected >= 0,
        forall|a: int, b: int|
            is_top_two(counts(troop(monkeys@)), a, b) ==> #[trigger] (counts(troop(monkeys@))[a]
                * counts(troop(monkeys@))[b]) <= i64::MAX,
    ensures
        exists|a: int, b: int|
            is_top_two(counts(troop(monkeys@)), a, b) && r == counts(troop(monkeys@))[a] * counts(
                troop(monkeys@),
            )[b],
{
    let ghost s = counts(troop(monkeys@));
    assert forall|k: int| 0 <= k < monkeys.len() implies s[k] == monkeys@[k].inspected by {}
    let n = monkeys.len();
    let mut a: usize = 0;
    let mut k: usize = 1;
    while k < n
        invariant
            n == monkeys.len(),
            s.len() == n,
            forall|j: int| 0 <= j < n ==> s[j] == monkeys@[j].inspected,
            1 <= k <= n,
            a < k,
            forall|j: int| 0 <= j < k ==> s[j] <= s[a as int],
        decreases n - k,
    {
        if monkeys[k].inspected > monkeys[a].inspected {
            a = k;
        }
        k = k + 1;
    }
    let mut b: usize = if a == 0 { 1 } else { 0 };
    let mut k: usize = 0;
    while k < n
        invariant
            n == monkeys.len(),
            s.len() == n,
            forall|j: int| 0 <= j < n ==> s[j] == monkeys@[j].inspected,
            forall|j: int| 0 <= j < n ==> s[j] <= s[a as int],
            a < n,
            b < n,
            b != a,
            k <= n,
            forall|j: int| 0 <= j < k && j != a ==> s[j] <= s[b as int],
        decreases n - k,
    {
        if k != a && monkeys[k].inspected > monkeys[b].inspected {
            b = k;
        }
        k = k + 1;
    }
    assert(is_top_two(s, a as int, b as int));
    let x = monkeys[a].inspected;
    let y = monkeys[b].inspected;
    assert(s[a as int] * s[b as int] <= i64::MAX);
    assert(x * y >= 0) by (nonlinear_arith)
        requires
            x >= 0,
            y >= 0,
    {
    }
    x * y
}

/// The troop of the puzzle's example.
pub open spec fn example_troop() -> Seq<MonkeyView> {
    seq![
        MonkeyView { items: seq![79, 98], op: Operation::Mul(19), test: 23, yes: 2, no: 3, inspected: 0 },
        MonkeyView { items: seq![54, 65, 75, 74], op: Operation::Add(6), test: 19, yes: 2, no: 0, inspected: 0 },
        MonkeyView { items: seq![79, 60, 97], op: Operation::Square, test: 13, yes: 1, no: 3, inspected: 0 },
        MonkeyView { items: seq![74], op: Operation::Add(3), test: 17, yes: 0, no: 1, inspected: 0 },
    ]
}

/// The troop of the puzzle's input.
pub open spec fn input_troop() -> Seq<MonkeyView> {
    seq![
        MonkeyView { items: seq![62, 92, 50, 63, 62, 93, 73, 50], op: Operation::Mul(7), test: 2, yes: 7, no: 1, inspected: 0 },
        MonkeyView { items: seq![51, 97, 74, 84, 99], op: Operation::Add(3), test: 7, yes: 2, no: 4, inspected: 0 },
        MonkeyView { items: seq![98, 86, 62, 76, 51, 81, 95], op: Operation::Add(4), test: 13, yes: 5, no: 4, inspected: 0 },
        MonkeyView { items: seq![53, 95, 50, 85, 83, 72], op: Operation::Add(5), test: 19, yes: 6, no: 0, inspected: 0 },
        MonkeyView { items: seq![59, 60, 63, 71], op: Operation::Mul(5), test: 11, yes: 5, no: 3, inspected: 0 },
        MonkeyView { items: seq![92, 65], op: Operation::Square, test: 5, yes: 6, no: 3, inspected: 0 },
        MonkeyView { items: seq![78], op: Operation::Add(8), test: 3, yes: 0, no: 7, inspected: 0 },
        MonkeyView { items: seq![84, 93, 54], op: Operation::Add(1), test: 17, yes: 2, no: 1, inspected: 0 },
    ]
}

/// Turns the monkeys as described into monkeys ready to play.
pub fn start_troop(inputs: Vec<MonkeyInput>) -> (r: Vec<Monkey>)
    ensures
        r.len() == inputs.len(),
        forall|k: int|
            0 <= k < r.len() ==> {
                let m = #[trigger] r@[k];
                let d = inputs@[k];
                &&& m.items@ == d.items@
                &&& m.op == d.op
                &&& m.test == d.test
                &&& m.yes == d.yes
                &&& m.no == d.no
                &&& m.inspected == 0
            },
{
    let ghost orig = inputs@;
    let mut inputs = inputs;
    let mut rev: Vec<Monkey> = Vec::new();
    while inputs.len() > 0
        invariant
            inputs@.len() + rev@.len() == orig.len(),
            forall|k: int| 0 <= k < inputs@.len() ==> #[trigger] inputs@[k] == orig[k],
            forall|k: int|
                0 <= k < rev.len() ==> {
                    let m = #[trigger] rev@[k];
                    let d = orig[orig.len() - 1 - k];
                    &&& m.items@ == d.items@
                    &&& m.op == d.op
                    &&& m.test == d.test
                    &&& m.yes == d.yes
                    &&& m.no == d.no
                    &&& m.inspected == 0
                },
        decreases inputs@.len(),
    {
        let d = inputs.pop().unwrap();
        rev.push(Monkey::new(d));
    }
    let mut r: Vec<Monkey> = Vec::new();
    while rev.len() > 0
        invariant
            rev@.len() + r@.len() == orig.len(),
            forall|k: int|
                0 <= k < rev.len() ==> {
                    let m = #[trigger] rev@[k];
                    let d = orig[orig.len() - 1 - k];
                    &&& m.items@ == d.items@
                    &&& m.op == d.op
                    &&& m.test == d.test
                    &&& m.yes == d.yes
                    &&& m.no == d.no
                    &&& m.inspected == 0
                },
            forall|k: int|
                0 <= k < r.len() ==> {
                    let m = #[trigger] r@[k];
                    let d = orig[k];
                    &&& m.items@ == d.items@
                    &&& m.op == d.op
                    &&& m.test == d.test
                    &&& m.yes == d.yes
                    &&& m.no == d.no
                    &&& m.inspected == 0
                },
        decreases rev@.len(),
    {
        let m = rev.pop().unwrap();
        r.push(m);
    }
    r
}

proof fn lemma_troop_equal(r: Seq<Monkey>, want: Seq<MonkeyView>)
    requires
        r.len() == want.len(),
        forall|k: int|
            0 <= k < r.len() ==> {
                let m = #[trigger] r[k];
                let w = want[k];
                &&& m.items@.map_values(|x: i64| x as int) =~= w.items
                &&& m.op == w.op
                &&& m.test == w.test
                &&& m.yes == w.yes
                &&& m.no == w.no
                &&& m.inspected == w.inspected
            },
    ensures
        troop(r) == want,
{
    assert(troop(r) =~= want);
}

/// The troop of the puzzle's example.
pub fn test_monkeys() -> (r: Vec<Monkey>)
    ensures
        troop(r@) == example_troop(),
{
    let mut inputs: Vec<MonkeyInput> = Vec::new();
    inputs.push(MonkeyInput { items: vec![79, 98], op: Operation::Mul(19), test: 23, yes: 2, no: 3 });
    inputs.push(MonkeyInput { items: vec![54, 65, 75, 74], op: Operation::Add(6), test: 19, yes: 2, no: 0 });
    inputs.push(MonkeyInput { items: vec![79, 60, 97], op: Operation::Square, test: 13, yes: 1, no: 3 });
    inputs.push(MonkeyInput { items: vec![74], op: Operation::Add(3), test: 17, yes: 0, no: 1 });
    let r = start_troop(inputs);
    proof {
        lemma_troop_equal(r@, example_troop());
    }
    r
}

/// The troop of the puzzle's input.
pub fn init_monkeys() -> (r: Vec<Monkey>)
    ensures
        troop(r@) == input_troop(),
{
    let mut inputs: Vec<MonkeyInput> = Vec::new();
    inputs.push(MonkeyInput { items: vec![62, 92, 50, 63, 62, 93, 73, 50], op: Operation::Mul(7), test: 2, yes: 7, no: 1 });
    inputs.push(MonkeyInput { items: vec![51, 97, 74, 84, 99], op: Operation::Add(3), test: 7, yes: 2, no: 4 });
    inputs.push(MonkeyInput { items: vec![98, 86, 62, 76, 51, 81, 95], op: Operation::Add(4), test: 13, yes: 5, no: 4 });
    inputs.push(MonkeyInput { items: vec![53, 95, 50, 85, 83, 72], op: Operation::Add(5), test: 19, yes: 6, no: 0 });
    inputs.push(MonkeyInput { items: vec![59, 60, 63, 71], op: Operation::Mul(5), test: 11, yes: 5, no: 3 });
    inputs.push(MonkeyInput { items: vec![92, 65], op: Operation::Square, test: 5, yes: 6, no: 3 });
    inputs.push(MonkeyInput { items: vec![78], op: Operation::Add(8), test: 3, yes: 0, no: 7 });
    inputs.push(MonkeyInput { items: vec![84, 93, 54], op: Operation::Add(1), test: 17, yes: 2, no: 1 });
    let r = start_troop(inputs);
    proof {
        lemma_troop_equal(r@, input_troop());
    }
    r
}

/// The relief rule of a part: division by three, or for part two the
/// remainder modulo the product of the troop's tests.
pub open spec fn relief_of(test: bool, part2: bool) -> Relief {
    if !part2 {
        Relief::DivideBy3
    } else if test {
        Relief::Modulo(96577)
    } else {
        Relief::Modulo(9699690)
    }
}

/// The number of rounds of a part.
pub open spec fn rounds_of(part2: bool) -> nat {
    if part2 { 10000 } else { 20 }
}

/// The troop of the example or of the input.
pub open spec fn troop_of(test: bool) -> Seq<MonkeyView> {
    if test { example_troop() } else { input_troop() }
}

/// The game of a part ends with a troop whose numbers fit in `i64` and
/// whose level of monkey business does too.
pub open spec fn game_fits(test: bool, part2: bool) -> bool {
    play(troop_of(test), rounds_of(part2), relief_of(test, part2)) matches Some(f)
        && forall|a: int, b: int| is_top_two(counts(f), a, b) ==> #[trigger] (counts(f)[a] * counts(f)[b]) <= i64::MAX
}

/// Plays the example or the input troop for the rounds of a part and
/// returns the level of monkey business.
pub fn process(test: bool, part2: bool) -> (r: i64)
    requires
        game_fits(test, part2),
    ensures
        play(troop_of(test), rounds_of(part2), relief_of(test, part2)) matches Some(f) && exists|
            a: int,
            b: int,
        | is_top_two(counts(f), a, b) && r == counts(f)[a] * counts(f)[b],
{
    let mut monkeys = if test {
        test_monkeys()
    } else {
        init_monkeys()
    };
    let rounds: u32 = if part2 { 10000 } else { 20 };
    let relief = if !part2 {
        Relief::DivideBy3
    } else if test {
        Relief::Modulo(13 * 17 * 19 * 23)
    } else {
        Relief::Modulo(2 * 3 * 5 * 7 * 11 * 13 * 17 * 19)
    };
    assert(troop_ok(troop(monkeys@)));
    play_rounds(&mut monkeys, rounds, relief);
    proof {
        lemma_play_ok(troop_of(test), rounds as nat, relief);
        let f = troop(monkeys@);
        assert(counts(f).len() == monkeys.len());
        assert forall|k: int| 0 <= k < monkeys.len() implies monkeys@[k].inspected >= 0 by {
            assert(f[k] == monkeys@[k]@);
        }
    }
    monkey_business(&monkeys)
}

} // verus!
