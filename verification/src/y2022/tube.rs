//! Cathode-ray tube: a CPU with one register runs `noop` and `addx`
//! instructions; sum the signal strength at the 20th, 60th, ... 220th cycle.
use vstd::prelude::*;
use crate::common::string_views;
use crate::text::{parse_i64, parse_int, str_equal, strip_prefix};

verus! {

/// Errors of this puzzle.
pub enum Error {
    /// A line is not an instruction; the text is the line.
    InvalidLine(String),
    /// The operand of `addx` is not a number; the text is the operand.
    InvalidNumber(String),
}

/// The CPU state: the signal strength sum so far, the current cycle, the
/// register, and whether to trace.
pub struct Tube {
    pub sum: i64,
    pub cycle: i64,
    pub register: i64,
    pub debug: bool,
}

/// The cycles at which the signal strength is sampled.
pub open spec fn sampled(c: int) -> bool {
    c == 20 || c == 60 || c == 100 || c == 140 || c == 180 || c == 220
}

/// Values that leave room for the arithmetic of a cycle.
pub open spec fn tube_ok(t: Tube) -> bool {
    &&& 0 <= t.cycle <= 1_000_000_000
    &&& -1_000_000_000_000 <= t.register <= 1_000_000_000_000
    &&& -2_000_000_000_000_000_000 <= t.sum <= 2_000_000_000_000_000_000
}

impl Tube {
    /// A CPU before its first cycle, with the register at 1.
    pub fn new(debug: bool) -> (r: Tube)
        ensures
            r.sum == 0,
            r.cycle == 0,
            r.register == 1,
            r.debug == debug,
    {
        Tube { sum: 0, cycle: 0, register: 1, debug: debug }
    }

    /// Samples the signal strength (cycle times register) at the sampled
    /// cycles.
    pub fn visit(&mut self)
        requires
            tube_ok(*old(self)),
        ensures
            final(self).sum == old(self).sum + if sampled(old(self).cycle as int) {
                old(self).cycle * old(self).register
            } else {
                0
            },
            final(self).cycle == old(self).cycle,
            final(self).register == old(self).register,
            final(self).debug == old(self).debug,
    {
        if self.cycle == 20 || self.cycle == 60 || self.cycle == 100 || self.cycle == 140 || self.cycle == 180
            || self.cycle == 220 {
            self.sum = self.sum + (self.cycle * self.register);
        }
    }

    /// Advances one cycle and samples it.
    pub fn cycle(&mut self)
        requires
            tube_ok(*old(self)),
            old(self).cycle < 1_000_000_000,
        ensures
            final(self).cycle == old(self).cycle + 1,
            final(self).sum == old(self).sum + if sampled(old(self).cycle + 1) {
                (old(self).cycle + 1) * old(self).register
            } else {
                0
            },
            final(self).register == old(self).register,
            final(self).debug == old(self).debug,
    {
        self.cycle = self.cycle + 1;
        self.visit();
    }

    /// The signal strength sum so far.
    pub fn sum(&self) -> (r: i64)
        ensures
            r == self.sum,
    {
        self.sum
    }
}

/// The machine state as numbers: sum, cycle, register.
pub type State = (int, int, int);

/// One cycle: advance and sample.
pub open spec fn tick(s: State) -> State {
    let c = s.1 + 1;
    (s.0 + if sampled(c) { c * s.2 } else { 0 }, c, s.2)
}

/// An instruction line: `noop`, or `addx` with its operand.
pub open spec fn instruction(l: Seq<char>) -> Option<Option<int>> {
    if l == "noop"@ {
        Some(None)
    } else if l.len() >= 5 && l.take(5) == "addx "@ {
        match parse_int(l.skip(5), true, i64::MIN as int, i64::MAX as int) {
            Some(n) => Some(Some(n)),
            None => None,
        }
    } else {
        None
    }
}

/// The state after the non-blank lines among the first `n`, or `None` at
/// the first line that is not an instruction.
pub open spec fn program(lines: Seq<Seq<char>>, n: nat) -> Option<State>
    decreases n,
{
    if n == 0 {
        Some((0, 0, 1))
    } else {
        match program(lines, (n - 1) as nat) {
            None => None,
            Some(s) => if lines[n - 1].len() == 0 {
                Some(s)
            } else {
                match instruction(lines[n - 1]) {
                    None => None,
                    Some(None) => Some(tick(s)),
                    Some(Some(v)) => {
                        let t = tick(tick(s));
                        Some((t.0, t.1, t.2 + v))
                    },
                }
            },
        }
    }
}

/// Every intermediate state of the program leaves room for its arithmetic.
pub open spec fn program_fits(lines: Seq<Seq<char>>) -> bool {
    forall|n: nat| n <= lines.len() ==> (#[trigger] program(lines, n) matches Some(s) ==> ({
        &&& 0 <= s.1 < 1_000_000_000 - 2
        &&& -1_000_000_000_000 <= s.2 <= 1_000_000_000_000
        &&& -1_000_000_000_000_000_000 <= s.0 <= 1_000_000_000_000_000_000
        &&& n < lines.len() ==> (instruction(lines[n as int]) matches Some(Some(v)) ==> -1_000_000_000_000
            <= s.2 + v <= 1_000_000_000_000)
        &&& n < lines.len() ==> -1_000_000_000_000_000_000 <= tick(tick(s)).0 <= 1_000_000_000_000_000_000
    }))
}

proof fn lemma_program_none_stays(lines: Seq<Seq<char>>, m: nat, n: nat)
    requires
        m <= n,
        program(lines, m) is None,
    ensures
        program(lines, n) is None,
    decreases n - m,
{
    if m < n {
        lemma_program_none_stays(lines, m, (n - 1) as nat);
    }
}

/// The sampled cycles are the 20th and every 40th after it, up to the
/// 220th.
pub proof fn lemma_sampled_cycles(c: int)
    ensures
        sampled(c) <==> 20 <= c <= 220 && (c - 20) % 40 == 0,
{
}

/// The cycles a line takes: one for `noop`, two for `addx`, none for a
/// blank line.
pub open spec fn line_cycles(l: Seq<char>) -> int {
    if l.len() == 0 {
        0
    } else {
        match instruction(l) {
            Some(None) => 1,
            Some(Some(_)) => 2,
            None => 0,
        }
    }
}

/// What a line adds to the register once it has completed: the operand of
/// an `addx`, else nothing.
pub open spec fn line_operand(l: Seq<char>) -> int {
    if l.len() == 0 {
        0
    } else {
        match instruction(l) {
            Some(Some(v)) => v,
            _ => 0,
        }
    }
}

/// The cycle by whose end the first `n` lines have all completed.
pub open spec fn cycles_used(lines: Seq<Seq<char>>, n: nat) -> int
    decreases n,
{
    if n == 0 {
        0
    } else {
        cycles_used(lines, (n - 1) as nat) + line_cycles(lines[n - 1])
    }
}

/// The register during cycle `c`: 1, plus the operands of those of the
/// first `n` lines that completed before cycle `c` began.
pub open spec fn register_during(lines: Seq<Seq<char>>, n: nat, c: int) -> int
    decreases n,
{
    if n == 0 {
        1
    } else {
        register_during(lines, (n - 1) as nat, c) + if cycles_used(lines, n) < c {
            line_operand(lines[n - 1])
        } else {
            0
        }
    }
}

/// The signal strengths (cycle times the register during it) of the
/// sampled cycles up to cycle `c`, summed.
pub open spec fn strength_sum(lines: Seq<Seq<char>>, n: nat, c: int) -> int
    decreases (if c > 0 { c } else { 0 }),
{
    if c <= 0 {
        0
    } else {
        strength_sum(lines, n, c - 1) + if sampled(c) { c * register_during(lines, n, c) } else { 0 }
    }
}

proof fn lemma_cycles_grow(lines: Seq<Seq<char>>, m: nat, n: nat)
    requires
        m <= n,
    ensures
        0 <= cycles_used(lines, m) <= cycles_used(lines, n),
    decreases n,
{
    if n > m {
        lemma_cycles_grow(lines, m, (n - 1) as nat);
    } else if n > 0 {
        lemma_cycles_grow(lines, 0, (n - 1) as nat);
    }
}

/// Once all `m` lines have completed, the register no longer changes.
proof fn lemma_register_settled(lines: Seq<Seq<char>>, m: nat, c1: int, c2: int)
    requires
        c1 > cycles_used(lines, m),
        c2 > cycles_used(lines, m),
    ensures
        register_during(lines, m, c1) == register_during(lines, m, c2),
    decreases m,
{
    if m > 0 {
        lemma_cycles_grow(lines, (m - 1) as nat, m);
        lemma_register_settled(lines, (m - 1) as nat, c1, c2);
    }
}

/// Before line `n` completes, it does not change the strengths.
proof fn lemma_strength_before(lines: Seq<Seq<char>>, n: nat, c: int)
    requires
        n > 0,
        c <= cycles_used(lines, n),
    ensures
        strength_sum(lines, n, c) == strength_sum(lines, (n - 1) as nat, c),
    decreases (if c > 0 { c } else { 0 }),
{
    if c > 0 {
        lemma_strength_before(lines, n, c - 1);
    }
}

/// What the CPU computes, told cycle by cycle: after the first `n` lines,
/// the cycle count is the cycles they take (one for `noop`, two for
/// `addx`), the register is 1 plus the operands of every `addx`, and the
/// sum is that of the signal strengths of the sampled cycles so far, where
/// the register during a cycle counts only the `addx` instructions whose
/// two cycles ended before it; the one more cycle that `run_program` runs
/// adds its strength in the same way.
pub proof fn lemma_program_cycles(lines: Seq<Seq<char>>, n: nat)
    requires
        n <= lines.len(),
    ensures
        program(lines, n) matches Some(s) ==> {
            &&& s.1 == cycles_used(lines, n)
            &&& s.2 == register_during(lines, n, s.1 + 1)
            &&& s.0 == strength_sum(lines, n, s.1)
            &&& tick(s).0 == strength_sum(lines, n, s.1 + 1)
        },
    decreases n,
{
    if n > 0 {
        lemma_program_cycles(lines, (n - 1) as nat);
        if let Some(s0) = program(lines, (n - 1) as nat) {
            let c = s0.1;
            let l = lines[n - 1];
            lemma_cycles_grow(lines, (n - 1) as nat, n);
            lemma_register_settled(lines, (n - 1) as nat, c + 1, c + 2);
            lemma_register_settled(lines, (n - 1) as nat, c + 1, c + 3);
            lemma_strength_before(lines, n, c);
            if l.len() == 0 {
                assert(register_during(lines, n, c + 1) == register_during(lines, (n - 1) as nat, c + 1));
            } else {
                match instruction(l) {
                    Some(None) => {
                        assert(register_during(lines, n, c + 1) == register_during(lines, (n - 1) as nat, c + 1));
                        assert(register_during(lines, n, c + 2) == register_during(lines, (n - 1) as nat, c + 2));
                        assert(strength_sum(lines, n, c + 1) == strength_sum(lines, n, c) + if sampled(c + 1) {
                            (c + 1) * register_during(lines, n, c + 1)
                        } else {
                            0
                        });
                    },
                    Some(Some(v)) => {
                        assert(register_during(lines, n, c + 1) == register_during(lines, (n - 1) as nat, c + 1));
                        assert(register_during(lines, n, c + 2) == register_during(lines, (n - 1) as nat, c + 2));
                        assert(register_during(lines, n, c + 3) == register_during(lines, (n - 1) as nat, c + 3) + v);
                        assert(strength_sum(lines, n, c + 1) == strength_sum(lines, n, c) + if sampled(c + 1) {
                            (c + 1) * register_during(lines, n, c + 1)
                        } else {
                            0
                        });
                        assert(strength_sum(lines, n, c + 2) == strength_sum(lines, n, c + 1) + if sampled(c + 2) {
                            (c + 2) * register_during(lines, n, c + 2)
                        } else {
                            0
                        });
                    },
                    None => {},
                }
            }
            if let Some(s) = program(lines, n) {
                assert(strength_sum(lines, n, s.1 + 1) == strength_sum(lines, n, s.1) + if sampled(s.1 + 1) {
                    (s.1 + 1) * register_during(lines, n, s.1 + 1)
                } else {
                    0
                });
            }
        }
    }
}

/// Runs the program (trimmed lines, blank ones skipped), then one more
/// cycle, and returns the signal strength sum.
pub fn run_program(lines: &Vec<String>, debug: bool) -> (r: Result<i64, Error>)
    requires
        program_fits(string_views(lines@)),
        program(string_views(lines@), lines@.len()) matches Some(s) ==> -1_000_000_000_000_000_000 <= tick(s).0
            <= 1_000_000_000_000_000_000,
    ensures
        program(string_views(lines@), lines@.len()) matches Some(s) ==> r matches Ok(v) && v == tick(s).0,
        program(string_views(lines@), lines@.len()) is None ==> r is Err,
{
    let ghost views = string_views(lines@);
    let mut tube = Tube::new(debug);
    let n = lines.len();
    for i in 0..n
        invariant
            n == lines@.len(),
            views == string_views(lines@),
            program_fits(views),
            program(views, i as nat) == Some((tube.sum as int, tube.cycle as int, tube.register as int)),
    {
        let line = lines[i].as_str();
        proof {
            assert(views[i as int] == line@);
            assert(program(views, i as nat) matches Some(_));
        }
        if line.unicode_len() != 0 {
            if str_equal(line, "noop") {
                tube.cycle();
            } else {
                match strip_prefix(line, "addx ") {
                    Some(nstr) => {
                        let v = match parse_i64(nstr) {
                            Some(v) => v,
                            None => {
                                proof {
                                    lemma_program_none_stays(views, (i + 1) as nat, n as nat);
                                }
                                return Err(Error::InvalidNumber(nstr.to_owned()));
                            },
                        };
                        proof {
                            reveal_strlit("addx ");
                            assert(instruction(views[i as int]) == Some(Some(v as int)));
                        }
                        tube.cycle();
                        tube.cycle();
                        tube.register = tube.register + v;
                    },
                    None => {
                        proof {
                            lemma_program_none_stays(views, (i + 1) as nat, n as nat);
                        }
                        return Err(Error::InvalidLine(line.to_owned()));
                    },
                }
            }
        }
    }
    proof {
        assert(program(views, n as nat) matches Some(_));
    }
    tube.cycle();
    Ok(tube.sum())
}

} // verus!
