//! Pulse propagation: flip-flops, conjunctions and a broadcaster pass low
//! and high pulses along cables; count the pulses sent over a thousand
//! presses of the button.
use vstd::prelude::*;
use std::collections::VecDeque;
use crate::text::{find_str, find_str_spec, lemma_find_str, occurs_at, split_spec, split_str, str_equal, trim, trimmed};

verus! {

/// What a module does with the pulses it receives.
#[derive(Clone, Copy, PartialEq, Eq, Structural, Debug)]
pub enum ModuleType {
    Broadcaster,
    FlipFlop,
    Conjunction,
    Output,
}

/// A module: its type, name, the modules whose cables lead to it, and the
/// names its cables lead to.
pub struct Module {
    pub typ: ModuleType,
    pub name: String,
    pub inputs: Vec<String>,
    pub outputs: Vec<String>,
}

/// A pulse: the position of the module that sent it and of the module it
/// goes to, each `None` when no module has that name (the button is not a
/// module), and whether it is high.
#[derive(Clone, Copy)]
pub struct Pulse {
    pub sender: Option<usize>,
    pub receiver: Option<usize>,
    pub high: bool,
}

/// The modules with their cables resolved to positions, and their state:
/// whether each flip-flop is on, and what each conjunction remembers of
/// the last pulse from each of its inputs.
pub struct Network {
    pub modules: Vec<Module>,
    pub targets: Vec<Vec<Option<usize>>>,
    pub on: Vec<bool>,
    pub memory: Vec<Vec<(Option<usize>, bool)>>,
    pub broadcaster: Option<usize>,
    pub button: Option<usize>,
}

/// The parts of a network that never change: each module's type and where
/// its cables lead.
pub open spec fn kinds(n: &Network) -> Seq<ModuleType> {
    n.modules@.map_values(|m: Module| m.typ)
}

pub open spec fn target_views(n: &Network) -> Seq<Seq<Option<usize>>> {
    n.targets@.map_values(|t: Vec<Option<usize>>| t@)
}

pub open spec fn memory_views(n: &Network) -> Seq<Seq<(Option<usize>, bool)>> {
    n.memory@.map_values(|m: Vec<(Option<usize>, bool)>| m@)
}

/// A network's parts agree in length and every cable leads to a module or
/// to nothing.
pub open spec fn net_wf(n: &Network) -> bool {
    &&& n.targets@.len() == n.modules@.len()
    &&& n.on@.len() == n.modules@.len()
    &&& n.memory@.len() == n.modules@.len()
    &&& forall|i: int, k: int| 0 <= i < n.targets@.len() && 0 <= k < n.targets@[i]@.len() ==> (#[trigger] n.targets@[i]@[k]
        matches Some(t) ==> t < n.modules@.len())
    &&& n.broadcaster matches Some(b) ==> b < n.modules@.len()
    &&& n.button matches Some(b) ==> b < n.modules@.len()
}

/// The first entry of a conjunction's memory for `key`.
pub open spec fn key_pos(m: Seq<(Option<usize>, bool)>, key: Option<usize>) -> Option<int>
    decreases m.len(),
{
    if m.len() == 0 {
        None
    } else {
        match key_pos(m.drop_last(), key) {
            Some(k) => Some(k),
            None => if m.last().0 == key { Some(m.len() - 1) } else { None },
        }
    }
}

/// A conjunction's memory after remembering `high` for `key`.
pub open spec fn remember(m: Seq<(Option<usize>, bool)>, key: Option<usize>, high: bool) -> Seq<(Option<usize>, bool)> {
    match key_pos(m, key) {
        Some(k) => m.update(k, (key, high)),
        None => m.push((key, high)),
    }
}

/// Every remembered pulse is high.
pub open spec fn all_high(m: Seq<(Option<usize>, bool)>) -> bool {
    forall|k: int| 0 <= k < m.len() ==> #[trigger] m[k].1
}

/// The pulses module `r` sends along its cables.
pub open spec fn emit(r: usize, ts: Seq<Option<usize>>, high: bool) -> Seq<Pulse> {
    ts.map_values(|t: Option<usize>| Pulse { sender: Some(r), receiver: t, high })
}

/// What receiving `p` does: the new flip-flop and conjunction states and
/// the pulses sent on. A flip-flop ignores high pulses and flips on a low
/// one, sending high when it turns on; a conjunction remembers the pulse
/// and sends low when all it remembers is high; the broadcaster passes the
/// pulse on; the output and unknown modules keep it.
pub open spec fn step(
    kinds: Seq<ModuleType>,
    targets: Seq<Seq<Option<usize>>>,
    on: Seq<bool>,
    mem: Seq<Seq<(Option<usize>, bool)>>,
    p: Pulse,
) -> (Seq<bool>, Seq<Seq<(Option<usize>, bool)>>, Seq<Pulse>) {
    match p.receiver {
        None => (on, mem, Seq::empty()),
        Some(r) => if r >= kinds.len() {
            (on, mem, Seq::empty())
        } else {
            match kinds[r as int] {
                ModuleType::FlipFlop => if p.high {
                    (on, mem, Seq::empty())
                } else {
                    let now = !on[r as int];
                    (on.update(r as int, now), mem, emit(r, targets[r as int], now))
                },
                ModuleType::Conjunction => {
                    let m = remember(mem[r as int], p.sender, p.high);
                    (on, mem.update(r as int, m), emit(r, targets[r as int], !all_high(m)))
                },
                ModuleType::Broadcaster => (on, mem, emit(r, targets[r as int], p.high)),
                ModuleType::Output => (on, mem, Seq::empty()),
            }
        },
    }
}

/// The low pulse a press of the button sends from the button (`k`, the
/// module of that name, if any) to the broadcaster (`b`).
pub open spec fn button(b: Option<usize>, k: Option<usize>) -> Pulse {
    Pulse { sender: k, receiver: b, high: false }
}

/// Delivering the pulses of `queue` in order, each sending its pulses to
/// the back of the queue, then pressing the button `presses` more times:
/// the final states and the numbers of low and high pulses delivered, or
/// `None` when that takes more than `fuel` deliveries.
pub open spec fn sim(
    kinds: Seq<ModuleType>,
    targets: Seq<Seq<Option<usize>>>,
    b: Option<usize>,
    k: Option<usize>,
    on: Seq<bool>,
    mem: Seq<Seq<(Option<usize>, bool)>>,
    presses: nat,
    queue: Seq<Pulse>,
    fuel: nat,
) -> Option<(Seq<bool>, Seq<Seq<(Option<usize>, bool)>>, nat, nat)>
    decreases fuel, presses,
{
    if queue.len() == 0 {
        if presses == 0 {
            Some((on, mem, 0, 0))
        } else {
            sim(kinds, targets, b, k, on, mem, (presses - 1) as nat, seq![button(b, k)], fuel)
        }
    } else if fuel == 0 {
        None
    } else {
        let p = queue[0];
        let (on2, mem2, sent) = step(kinds, targets, on, mem, p);
        match sim(kinds, targets, b, k, on2, mem2, presses, queue.drop_first() + sent, (fuel - 1) as nat) {
            None => None,
            Some((on3, mem3, low, high)) => if p.high {
                Some((on3, mem3, low, high + 1))
            } else {
                Some((on3, mem3, low + 1, high))
            },
        }
    }
}

/// How many times `run` presses the button.
pub open spec fn press_count() -> nat {
    1000
}

proof fn lemma_key_pos(m: Seq<(Option<usize>, bool)>, key: Option<usize>)
    ensures
        key_pos(m, key) matches Some(k) ==> 0 <= k < m.len() && m[k].0 == key && forall|j: int| 0 <= j < k ==> m[j].0 != key,
        key_pos(m, key) is None ==> forall|j: int| 0 <= j < m.len() ==> m[j].0 != key,
    decreases m.len(),
{
    if m.len() > 0 {
        let p = m.drop_last();
        lemma_key_pos(p, key);
        assert forall|j: int| 0 <= j < p.len() implies p[j] == m[j] by {}
        match key_pos(p, key) {
            Some(k) => {},
            None => {
                if m.last().0 == key {
                } else {
                    assert forall|j: int| 0 <= j < m.len() implies m[j].0 != key by {
                        if j < p.len() {
                            assert(p[j].0 != key);
                        }
                    }
                }
            },
        }
    }
}

/// Remembers `high` for `key` in a conjunction's memory.
fn remember_exec(m: &Vec<(Option<usize>, bool)>, key: Option<usize>, high: bool) -> (r: Vec<(Option<usize>, bool)>)
    ensures
        r@ == remember(m@, key, high),
{
    proof {
        lemma_key_pos(m@, key);
    }
    let mut r: Vec<(Option<usize>, bool)> = Vec::new();
    let mut c: usize = 0;
    while c < m.len()
        invariant
            c <= m.len(),
            r@ == m@.take(c as int),
        decreases m.len() - c,
    {
        r.push(m[c]);
        assert(r@ =~= m@.take(c + 1));
        c = c + 1;
    }
    assert(r@ =~= m@);
    let mut k: usize = 0;
    while k < r.len() && r[k].0 != key
        invariant
            r@ == m@,
            k <= r.len(),
            forall|j: int| 0 <= j < k ==> r@[j].0 != key,
        decreases r.len() - k,
    {
        k = k + 1;
    }
    if k < r.len() {
        proof {
            let x = key_pos(m@, key);
            assert(x is Some);
            if x->0 < k {
                assert(m@[x->0].0 != key);
            }
            if x->0 > k {
                assert(m@[k as int].0 != key);
            }
        }
        r.set(k, (key, high));
    } else {
        r.push((key, high));
    }
    r
}

/// Whether every remembered pulse is high.
fn all_high_exec(m: &Vec<(Option<usize>, bool)>) -> (r: bool)
    ensures
        r == all_high(m@),
{
    let mut k: usize = 0;
    while k < m.len()
        invariant
            k <= m.len(),
            forall|j: int| 0 <= j < k ==> #[trigger] m@[j].1,
        decreases m.len() - k,
    {
        if !m[k].1 {
            return false;
        }
        k = k + 1;
    }
    true
}

/// Presses the button a thousand times, sending every pulse on in the order
/// sent, and gives the number of low pulses times the number of high ones.
/// `None` when that takes more than `steps` pulses, or the product does
/// not fit in `u64`.
pub fn run(net: &mut Network, steps: u64) -> (r: Option<u64>)
    requires
        net_wf(old(net)),
    ensures
        kinds(final(net)) == kinds(old(net)),
        target_views(final(net)) == target_views(old(net)),
        final(net).broadcaster == old(net).broadcaster,
        final(net).button == old(net).button,
        net_wf(final(net)),
        match sim(kinds(old(net)), target_views(old(net)), old(net).broadcaster, old(net).button, old(net).on@, memory_views(old(net)),
            press_count(), Seq::empty(), steps as nat) {
            Some((on, mem, low, high)) => {
                &&& low * high <= u64::MAX ==> r == Some((low * high) as u64) && final(net).on@ == on && memory_views(final(net)) == mem
                &&& low * high > u64::MAX ==> r is None
            },
            None => r is None,
        },
{
    let ghost ks = kinds(net);
    let ghost ts = target_views(net);
    let ghost b = net.broadcaster;
    let ghost bk = net.button;
    let ghost total = sim(ks, ts, b, bk, net.on@, memory_views(net), press_count(), Seq::empty(), steps as nat);
    let mut low: u64 = 0;
    let mut high: u64 = 0;
    let mut fuel = steps;
    let mut press: u32 = 0;
    while press < 1000
        invariant
            ks == kinds(old(net)),
            ts == target_views(old(net)),
            b == old(net).broadcaster,
            bk == old(net).button,
            bk == net.button,
            total == sim(kinds(old(net)), target_views(old(net)), old(net).broadcaster, old(net).button, old(net).on@, memory_views(old(net)),
                press_count(), Seq::empty(), steps as nat),
            ks == kinds(net),
            ts == target_views(net),
            b == net.broadcaster,
            net_wf(net),
            press <= 1000,
            low + high + fuel == steps,
            match sim(ks, ts, b, bk, net.on@, memory_views(net), (1000 - press) as nat, Seq::empty(), fuel as nat) {
                Some((on, mem, l, h)) => total == Some((on, mem, (low + l) as nat, (high + h) as nat)),
                None => total is None,
            },
        decreases 1000 - press,
    {
        let mut queue: VecDeque<Pulse> = VecDeque::new();
        queue.push_back(Pulse { sender: net.button, receiver: net.broadcaster, high: false });
        proof {
            assert(queue@ =~= seq![button(b, bk)]);
            assert(sim(ks, ts, b, bk, net.on@, memory_views(net), (1000 - press) as nat, Seq::empty(), fuel as nat)
                == sim(ks, ts, b, bk, net.on@, memory_views(net), (1000 - press - 1) as nat, queue@, fuel as nat));
        }
        while queue.len() > 0
            invariant
                ks == kinds(old(net)),
                ts == target_views(old(net)),
                b == old(net).broadcaster,
                bk == old(net).button,
                bk == net.button,
            bk == old(net).button,
            bk == net.button,
                total == sim(kinds(old(net)), target_views(old(net)), old(net).broadcaster, old(net).button, old(net).on@, memory_views(old(net)),
                    press_count(), Seq::empty(), steps as nat),
                ks == kinds(net),
                ts == target_views(net),
                b == net.broadcaster,
                net_wf(net),
                press < 1000,
                low + high + fuel == steps,
                forall|k: int| 0 <= k < queue@.len() ==> (#[trigger] queue@[k].receiver matches Some(t) ==> t < net.modules@.len()),
                match sim(ks, ts, b, bk, net.on@, memory_views(net), (1000 - press - 1) as nat, queue@, fuel as nat) {
                    Some((on, mem, l, h)) => total == Some((on, mem, (low + l) as nat, (high + h) as nat)),
                    None => total is None,
                },
            decreases fuel, queue@.len(),
        {
            if fuel == 0 {
                return None;
            }
            let p = queue.pop_front().unwrap();
            let ghost rest = queue@;
            let ghost stepped = step(ks, ts, net.on@, memory_views(net), p);
            fuel = fuel - 1;
            if p.high {
                high = high + 1;
            } else {
                low = low + 1;
            }
            let mut sent: Vec<Pulse> = Vec::new();
            let mut send = false;
            let mut level = false;
            let mut from: usize = 0;
            match p.receiver {
                None => {},
                Some(r) => {
                    from = r;
                    match net.modules[r].typ {
                        ModuleType::FlipFlop => {
                            if !p.high {
                                let now = !net.on[r];
                                net.on.set(r, now);
                                send = true;
                                level = now;
                            }
                        },
                        ModuleType::Conjunction => {
                            let m = remember_exec(&net.memory[r], p.sender, p.high);
                            let out = !all_high_exec(&m);
                            let ghost before = memory_views(net);
                            net.memory.set(r, m);
                            proof {
                                assert(memory_views(net) =~= before.update(r as int, remember(before[r as int], p.sender, p.high)));
                            }
                            send = true;
                            level = out;
                        },
                        ModuleType::Broadcaster => {
                            send = true;
                            level = p.high;
                        },
                        ModuleType::Output => {},
                    }
                },
            }
            if send {
                let n = net.targets[from].len();
                let mut k: usize = 0;
                while k < n
                    invariant
                        n == net.targets@[from as int]@.len(),
                        from < net.targets@.len(),
                        k <= n,
                        sent@ =~= emit(from, net.targets@[from as int]@, level).take(k as int),
                    decreases n - k,
                {
                    sent.push(Pulse { sender: Some(from), receiver: net.targets[from][k], high: level });
                    k = k + 1;
                }
            }
            proof {
                if send {
                    assert(kinds(net)[from as int] == net.modules@[from as int].typ);
                    assert(sent@ =~= emit(from, ts[from as int], level));
                    assert(stepped.2 == sent@);
                } else {
                    assert(stepped.2 =~= sent@);
                }
                assert(net.on@ == stepped.0);
                assert(memory_views(net) == stepped.1);
            }
            let mut k: usize = 0;
            let ghost before = queue@;
            while k < sent.len()
                invariant
                    k <= sent.len(),
                    queue@ == before + sent@.take(k as int),
                decreases sent.len() - k,
            {
                queue.push_back(sent[k]);
                assert(queue@ =~= before + sent@.take(k + 1));
                k = k + 1;
            }
            proof {
                assert(sent@.take(sent@.len() as int) =~= sent@);
                assert(queue@ == rest + stepped.2);
            }
        }
        press = press + 1;
    }
    proof {
        assert(sim(ks, ts, b, bk, net.on@, memory_views(net), 0, Seq::empty(), fuel as nat) == Some((net.on@, memory_views(net), 0nat, 0nat)));
    }
    low.checked_mul(high)
}


/// What went wrong reading a module.
#[derive(Clone, Copy, PartialEq, Eq, Structural, Debug)]
pub enum ErrorKind {
    MissingArrow,
    EmptyLeft,
}

/// An error, with the line it is about.
pub struct Error {
    pub kind: ErrorKind,
    pub text: String,
}

pub open spec fn err_view(e: Error) -> (ErrorKind, Seq<char>) {
    (e.kind, e.text@)
}

/// The contents of each string, in order.
pub open spec fn strs(v: Seq<String>) -> Seq<Seq<char>> {
    v.map_values(|s: String| s@)
}

/// A module as read: its type, name and the names its cables lead to.
pub type ModView = (ModuleType, Seq<char>, Seq<Seq<char>>);

/// What reading the line `s` gives: `%name -> a, b` is a flip-flop,
/// `&name -> a, b` a conjunction and `name -> a, b` the broadcaster.
pub open spec fn parse_module(s: Seq<char>) -> Result<ModView, (ErrorKind, Seq<char>)> {
    match find_str_spec(s, " -> "@) {
        None => Err((ErrorKind::MissingArrow, s)),
        Some(pos) => {
            let lhs = s.take(pos);
            let rhs = s.skip(pos + " -> "@.len());
            if s.len() == 0 {
                Err((ErrorKind::EmptyLeft, s))
            } else if s[0] == '%' {
                Ok((ModuleType::FlipFlop, lhs.skip(1), split_spec(rhs, ", "@)))
            } else if s[0] == '&' {
                Ok((ModuleType::Conjunction, lhs.skip(1), split_spec(rhs, ", "@)))
            } else {
                Ok((ModuleType::Broadcaster, lhs, split_spec(rhs, ", "@)))
            }
        },
    }
}

impl Module {
    /// Reads a module from a line such as `%a -> b, c`.
    pub fn from_str(s: &str) -> (r: Result<Module, Error>)
        ensures
            match parse_module(s@) {
                Ok(v) => r matches Ok(m) && (m.typ, m.name@, strs(m.outputs@)) == v && m.inputs@.len() == 0,
                Err(e) => r matches Err(x) && err_view(x) == e,
            },
    {
        let arrow = " -> ";
        let sep = ", ";
        proof {
            reveal_strlit(" -> ");
            reveal_strlit(", ");
        }
        let pos = match find_str(s, arrow) {
            Some(p) => p,
            None => {
                return Err(Error { kind: ErrorKind::MissingArrow, text: s.to_string() });
            },
        };
        let n = s.unicode_len();
        proof {
            lemma_find_str(s@, arrow@);
            assert(occurs_at(s@, arrow@, pos as int));
        }
        let lhs = s.substring_char(0, pos);
        let rhs = s.substring_char(pos + 4, n);
        if n == 0 {
            return Err(Error { kind: ErrorKind::EmptyLeft, text: s.to_string() });
        }
        let c = s.get_char(0);
        let (typ, name) = if c == '%' || c == '&' {
            proof {
                assert(s@.subrange(pos as int, pos + 4) == " -> "@);
                assert(" -> "@[0] == ' ');
                if pos == 0 {
                    assert(s@[0] == s@.subrange(pos as int, pos + 4)[0]);
                }
            }
            let t = if c == '%' { ModuleType::FlipFlop } else { ModuleType::Conjunction };
            proof {
                assert(lhs@.skip(1) =~= lhs@.subrange(1, pos as int));
            }
            (t, lhs.substring_char(1, pos))
        } else {
            (ModuleType::Broadcaster, lhs)
        };
        let outs = split_str(rhs, sep);
        proof {
            assert(strs(outs@) == split_spec(rhs@, ", "@));
        }
        Ok(Module { typ, name: name.to_string(), inputs: Vec::new(), outputs: outs })
    }
}

/// The first module with the given name.
pub open spec fn name_pos(ms: Seq<ModView>, name: Seq<char>) -> Option<int>
    decreases ms.len(),
{
    if ms.len() == 0 {
        None
    } else {
        match name_pos(ms.drop_last(), name) {
            Some(k) => Some(k),
            None => if ms.last().1 == name { Some(ms.len() - 1) } else { None },
        }
    }
}

/// The modules after adding `m`: it replaces the module with its name, or
/// else comes last.
pub open spec fn add_module(ms: Seq<ModView>, m: ModView) -> Seq<ModView> {
    match name_pos(ms, m.1) {
        Some(k) => ms.update(k, m),
        None => ms.push(m),
    }
}

/// What reading the lines gives: every line that is not blank, trimmed, is
/// a module, and a later module replaces an earlier one of the same name.
pub open spec fn parse_lines(lines: Seq<Seq<char>>) -> Result<Seq<ModView>, (ErrorKind, Seq<char>)>
    decreases lines.len(),
{
    if lines.len() == 0 {
        Ok(Seq::empty())
    } else {
        match parse_lines(lines.drop_last()) {
            Err(e) => Err(e),
            Ok(ms) => {
                let t = trimmed(lines.last());
                if t.len() == 0 {
                    Ok(ms)
                } else {
                    match parse_module(t) {
                        Err(e) => Err(e),
                        Ok(m) => Ok(add_module(ms, m)),
                    }
                }
            },
        }
    }
}

/// The modules read, with the output module added.
pub open spec fn modules_spec(lines: Seq<Seq<char>>) -> Result<Seq<ModView>, (ErrorKind, Seq<char>)> {
    match parse_lines(lines) {
        Err(e) => Err(e),
        Ok(ms) => Ok(add_module(ms, (ModuleType::Output, "output"@, Seq::empty()))),
    }
}

/// How many of `outs` are `name`.
pub open spec fn count_eq(outs: Seq<Seq<char>>, name: Seq<char>) -> nat
    decreases outs.len(),
{
    if outs.len() == 0 {
        0
    } else {
        count_eq(outs.drop_last(), name) + if outs.last() == name { 1nat } else { 0nat }
    }
}

/// `x`, `n` times.
pub open spec fn repeat(x: Seq<char>, n: nat) -> Seq<Seq<char>>
    decreases n,
{
    if n == 0 {
        Seq::empty()
    } else {
        repeat(x, (n - 1) as nat).push(x)
    }
}

/// The names of the modules whose cables lead to `name`, in order, once
/// per cable.
pub open spec fn inputs_of(ms: Seq<ModView>, name: Seq<char>) -> Seq<Seq<char>>
    decreases ms.len(),
{
    if ms.len() == 0 {
        Seq::empty()
    } else {
        inputs_of(ms.drop_last(), name) + repeat(ms.last().1, count_eq(ms.last().2, name))
    }
}

/// The position of the module with the given name, as a key.
pub open spec fn key_of(ms: Seq<ModView>, name: Seq<char>) -> Option<usize> {
    match name_pos(ms, name) {
        Some(k) => Some(k as usize),
        None => None,
    }
}

/// A conjunction's memory at the start: a low pulse from each input.
pub open spec fn initial_memory(ms: Seq<ModView>, ins: Seq<Seq<char>>) -> Seq<(Option<usize>, bool)>
    decreases ins.len(),
{
    if ins.len() == 0 {
        Seq::empty()
    } else {
        remember(initial_memory(ms, ins.drop_last()), key_of(ms, ins.last()), false)
    }
}

/// A network as its modules' views.
pub open spec fn module_views(n: &Network) -> Seq<ModView> {
    n.modules@.map_values(|m: Module| (m.typ, m.name@, strs(m.outputs@)))
}

/// The network that the modules `ms` make: cables resolved by name, the
/// inputs filled in, flip-flops off and conjunctions remembering low
/// pulses from all their inputs.
pub open spec fn built_from(n: &Network, ms: Seq<ModView>) -> bool {
    &&& net_wf(n)
    &&& module_views(n) == ms
    &&& forall|i: int| 0 <= i < ms.len() ==> strs(#[trigger] n.modules@[i].inputs@) == inputs_of(ms, ms[i].1)
    &&& forall|i: int, k: int| 0 <= i < ms.len() && 0 <= k < ms[i].2.len() ==> #[trigger] n.targets@[i]@[k] == key_of(ms, ms[i].2[k])
    &&& forall|i: int| 0 <= i < ms.len() ==> n.targets@[i]@.len() == ms[i].2.len()
    &&& forall|i: int| 0 <= i < ms.len() ==> !#[trigger] n.on@[i]
    &&& forall|i: int| 0 <= i < ms.len() ==> #[trigger] memory_views(n)[i] == (if ms[i].0 == ModuleType::Conjunction {
        initial_memory(ms, inputs_of(ms, ms[i].1))
    } else {
        Seq::empty()
    })
    &&& n.broadcaster == key_of(ms, "broadcaster"@)
    &&& n.button == key_of(ms, "button"@)
}

proof fn lemma_name_pos(ms: Seq<ModView>, name: Seq<char>)
    ensures
        name_pos(ms, name) matches Some(k) ==> 0 <= k < ms.len() && ms[k].1 == name && forall|j: int| 0 <= j < k ==> ms[j].1 != name,
        name_pos(ms, name) is None ==> forall|j: int| 0 <= j < ms.len() ==> ms[j].1 != name,
    decreases ms.len(),
{
    if ms.len() > 0 {
        let p = ms.drop_last();
        lemma_name_pos(p, name);
        assert forall|j: int| 0 <= j < p.len() implies p[j] == ms[j] by {}
        match name_pos(p, name) {
            Some(k) => {},
            None => {
                if ms.last().1 != name {
                    assert forall|j: int| 0 <= j < ms.len() implies ms[j].1 != name by {
                        if j < p.len() {
                            assert(p[j].1 != name);
                        }
                    }
                }
            },
        }
    }
}

/// The position of the module named `name`.
fn find_name(ms: &Vec<Module>, name: &str) -> (r: Option<usize>)
    ensures
        r matches Some(k) ==> name_pos(ms@.map_values(|m: Module| (m.typ, m.name@, strs(m.outputs@))), name@) == Some(k as int),
        r is None ==> name_pos(ms@.map_values(|m: Module| (m.typ, m.name@, strs(m.outputs@))), name@) is None,
{
    let ghost vs = ms@.map_values(|m: Module| (m.typ, m.name@, strs(m.outputs@)));
    proof {
        lemma_name_pos(vs, name@);
    }
    let mut k: usize = 0;
    while k < ms.len()
        invariant
            vs == ms@.map_values(|m: Module| (m.typ, m.name@, strs(m.outputs@))),
            k <= ms.len(),
            forall|j: int| 0 <= j < k ==> vs[j].1 != name@,
        decreases ms.len() - k,
    {
        if str_equal(ms[k].name.as_str(), name) {
            proof {
                lemma_name_pos(vs, name@);
                let x = name_pos(vs, name@);
                assert(vs[k as int].1 == name@);
                assert(x is Some);
                if x->0 < k {
                    assert(vs[x->0].1 != name@);
                }
                if x->0 > k {
                    assert(vs[k as int].1 != name@);
                }
            }
            return Some(k);
        }
        k = k + 1;
    }
    None
}

/// Adds a module, replacing the one with its name.
fn add_exec(ms: &mut Vec<Module>, m: Module)
    requires
        forall|i: int| 0 <= i < old(ms)@.len() ==> #[trigger] old(ms)@[i].inputs@.len() == 0,
        m.inputs@.len() == 0,
    ensures
        final(ms)@.map_values(|m: Module| (m.typ, m.name@, strs(m.outputs@))) == add_module(
            old(ms)@.map_values(|m: Module| (m.typ, m.name@, strs(m.outputs@))),
            (m.typ, m.name@, strs(m.outputs@)),
        ),
        forall|i: int| 0 <= i < final(ms)@.len() ==> #[trigger] final(ms)@[i].inputs@.len() == 0,
{
    let ghost before = ms@.map_values(|m: Module| (m.typ, m.name@, strs(m.outputs@)));
    let ghost mv = (m.typ, m.name@, strs(m.outputs@));
    proof {
        lemma_name_pos(before, m.name@);
    }
    match find_name(ms, m.name.as_str()) {
        Some(k) => {
            ms.set(k, m);
            assert(ms@.map_values(|m: Module| (m.typ, m.name@, strs(m.outputs@))) =~= before.update(k as int, mv));
        },
        None => {
            ms.push(m);
            assert(ms@.map_values(|m: Module| (m.typ, m.name@, strs(m.outputs@))) =~= before.push(mv));
        },
    }
}

proof fn lemma_parse_error(lines: Seq<Seq<char>>, k: int, n: int)
    requires
        0 <= k <= n <= lines.len(),
        parse_lines(lines.take(k)) is Err,
    ensures
        parse_lines(lines.take(n)) == parse_lines(lines.take(k)),
    decreases n - k,
{
    if k < n {
        lemma_parse_error(lines, k, n - 1);
        assert(lines.take(n).drop_last() =~= lines.take(n - 1));
    }
}

/// Copies strings.
fn copy_strings(v: &Vec<String>) -> (r: Vec<String>)
    ensures
        strs(r@) == strs(v@),
{
    let mut r: Vec<String> = Vec::new();
    let mut k: usize = 0;
    while k < v.len()
        invariant
            k <= v.len(),
            strs(r@) == strs(v@).take(k as int),
        decreases v.len() - k,
    {
        let ghost before = r@;
        let c = v[k].clone();
        r.push(c);
        assert(strs(r@) =~= strs(before).push(v@[k as int]@));
        assert(strs(v@).take(k + 1) =~= strs(v@).take(k as int).push(v@[k as int]@));
        k = k + 1;
    }
    assert(strs(v@).take(k as int) =~= strs(v@));
    r
}

/// Reads the modules, one a line (blank lines are skipped; a later module
/// replaces one of the same name), adds the output module, and builds the
/// network: cables resolved, inputs filled in, flip-flops off, and
/// conjunctions remembering a low pulse from each input.
pub fn read_input(lines: &Vec<String>) -> (r: Result<Network, Error>)
    ensures
        match modules_spec(strs(lines@)) {
            Ok(ms) => r matches Ok(n) && built_from(&n, ms),
            Err(e) => r matches Err(x) && err_view(x) == e,
        },
{
    let ghost ls = strs(lines@);
    let mut ms: Vec<Module> = Vec::new();
    let mut i: usize = 0;
    assert(ls.take(0) =~= Seq::<Seq<char>>::empty());
    assert(ms@.map_values(|m: Module| (m.typ, m.name@, strs(m.outputs@))) =~= Seq::<ModView>::empty());
    while i < lines.len()
        invariant
            ls == strs(lines@),
            i <= lines.len(),
            parse_lines(ls.take(i as int)) == Ok::<Seq<ModView>, (ErrorKind, Seq<char>)>(
                ms@.map_values(|m: Module| (m.typ, m.name@, strs(m.outputs@))),
            ),
            forall|j: int| 0 <= j < ms@.len() ==> #[trigger] ms@[j].inputs@.len() == 0,
        decreases lines.len() - i,
    {
        assert(ls.take(i + 1).drop_last() =~= ls.take(i as int));
        assert(ls.take(i + 1).last() == lines@[i as int]@);
        let t = trim(lines[i].as_str());
        if t.unicode_len() > 0 {
            match Module::from_str(t) {
                Err(e) => {
                    proof {
                        lemma_parse_error(ls, i + 1, ls.len() as int);
                        assert(ls.take(ls.len() as int) =~= ls);
                    }
                    return Err(e);
                },
                Ok(m) => {
                    add_exec(&mut ms, m);
                },
            }
        }
        i = i + 1;
    }
    assert(ls.take(i as int) =~= ls);
    let out_name = "output";
    let out_outputs: Vec<String> = Vec::new();
    proof {
        assert(strs(out_outputs@) =~= Seq::<Seq<char>>::empty());
    }
    add_exec(&mut ms, Module { typ: ModuleType::Output, name: out_name.to_string(), inputs: Vec::new(), outputs: out_outputs });
    let ghost mv = ms@.map_values(|m: Module| (m.typ, m.name@, strs(m.outputs@)));
    assert(modules_spec(ls) == Ok::<Seq<ModView>, (ErrorKind, Seq<char>)>(mv));
    let n = ms.len();
    let mut modules: Vec<Module> = Vec::new();
    let mut targets: Vec<Vec<Option<usize>>> = Vec::new();
    let mut on: Vec<bool> = Vec::new();
    let mut memory: Vec<Vec<(Option<usize>, bool)>> = Vec::new();
    let mut a: usize = 0;
    while a < n
        invariant
            n == ms@.len(),
            mv == ms@.map_values(|m: Module| (m.typ, m.name@, strs(m.outputs@))),
            a <= n,
            modules@.len() == a,
            targets@.len() == a,
            on@.len() == a,
            memory@.len() == a,
            modules@.map_values(|m: Module| (m.typ, m.name@, strs(m.outputs@))) == mv.take(a as int),
            forall|i: int| 0 <= i < a ==> strs(#[trigger] modules@[i].inputs@) == inputs_of(mv, mv[i].1),
            forall|i: int, k: int| 0 <= i < a && 0 <= k < mv[i].2.len() ==> #[trigger] targets@[i]@[k] == key_of(mv, mv[i].2[k]),
            forall|i: int| 0 <= i < a ==> targets@[i]@.len() == mv[i].2.len(),
            forall|i: int, k: int| 0 <= i < a && 0 <= k < targets@[i]@.len() ==> (#[trigger] targets@[i]@[k] matches Some(t) ==> t < n),
            forall|i: int| 0 <= i < a ==> !#[trigger] on@[i],
            forall|i: int| 0 <= i < a ==> #[trigger] memory@[i]@ == (if mv[i].0 == ModuleType::Conjunction {
                initial_memory(mv, inputs_of(mv, mv[i].1))
            } else {
                Seq::empty()
            }),
        decreases n - a,
    {
        let ghost name = mv[a as int].1;
        // The inputs: the modules whose cables lead here.
        let mut ins: Vec<String> = Vec::new();
        let mut b: usize = 0;
        while b < n
            invariant
                n == ms@.len(),
                mv == ms@.map_values(|m: Module| (m.typ, m.name@, strs(m.outputs@))),
                a < n,
                name == mv[a as int].1,
                b <= n,
                strs(ins@) == inputs_of(mv.take(b as int), name),
            decreases n - b,
        {
            let ghost pre = strs(ins@);
            let ghost outs = mv[b as int].2;
            let mut c: usize = 0;
            while c < ms[b].outputs.len()
                invariant
                    n == ms@.len(),
                    mv == ms@.map_values(|m: Module| (m.typ, m.name@, strs(m.outputs@))),
                    a < n,
                    b < n,
                    name == mv[a as int].1,
                    outs == mv[b as int].2,
                    c <= outs.len(),
                    strs(ins@) == pre + repeat(mv[b as int].1, count_eq(outs.take(c as int), name)),
                decreases outs.len() - c,
            {
                proof {
                    assert(outs.take(c + 1).drop_last() =~= outs.take(c as int));
                    assert(outs.take(c + 1).last() == outs[c as int]);
                    assert(ms@[b as int].outputs@[c as int]@ == outs[c as int]);
                }
                if str_equal(ms[b].outputs[c].as_str(), ms[a].name.as_str()) {
                    let ghost before = ins@;
                    ins.push(ms[b].name.clone());
                    assert(strs(ins@) =~= strs(before).push(mv[b as int].1));
                    assert(pre + repeat(mv[b as int].1, count_eq(outs.take(c + 1), name)) =~= (pre + repeat(
                        mv[b as int].1,
                        count_eq(outs.take(c as int), name),
                    )).push(mv[b as int].1));
                }
                c = c + 1;
            }
            proof {
                assert(outs.take(c as int) =~= outs);
                assert(mv.take(b + 1).drop_last() =~= mv.take(b as int));
                assert(mv.take(b + 1).last() == mv[b as int]);
            }
            b = b + 1;
        }
        proof {
            assert(mv.take(n as int) =~= mv);
        }
        // Where the cables lead.
        let mut ts: Vec<Option<usize>> = Vec::new();
        let mut c: usize = 0;
        while c < ms[a].outputs.len()
            invariant
                n == ms@.len(),
                mv == ms@.map_values(|m: Module| (m.typ, m.name@, strs(m.outputs@))),
                a < n,
                c <= mv[a as int].2.len(),
                ts@.len() == c,
                forall|k: int| 0 <= k < c ==> #[trigger] ts@[k] == key_of(mv, mv[a as int].2[k]),
                forall|k: int| 0 <= k < c ==> (#[trigger] ts@[k] matches Some(t) ==> t < n),
            decreases mv[a as int].2.len() - c,
        {
            let found = find_name(&ms, ms[a].outputs[c].as_str());
            proof {
                lemma_name_pos(mv, mv[a as int].2[c as int]);
            }
            ts.push(found);
            c = c + 1;
        }
        // What a conjunction remembers at the start.
        let mut mem: Vec<(Option<usize>, bool)> = Vec::new();
        if ms[a].typ == ModuleType::Conjunction {
            let mut d: usize = 0;
            while d < ins.len()
                invariant
                    n == ms@.len(),
                    mv == ms@.map_values(|m: Module| (m.typ, m.name@, strs(m.outputs@))),
                    d <= ins@.len(),
                    mem@ == initial_memory(mv, strs(ins@).take(d as int)),
                decreases ins@.len() - d,
            {
                let key = find_name(&ms, ins[d].as_str());
                proof {
                    assert(strs(ins@).take(d + 1).drop_last() =~= strs(ins@).take(d as int));
                    assert(strs(ins@).take(d + 1).last() == ins@[d as int]@);
                }
                mem = remember_exec(&mem, key, false);
                d = d + 1;
            }
            assert(strs(ins@).take(d as int) =~= strs(ins@));
        }
        let outs = copy_strings(&ms[a].outputs);
        let ghost before = modules@.map_values(|m: Module| (m.typ, m.name@, strs(m.outputs@)));
        modules.push(Module { typ: ms[a].typ, name: ms[a].name.clone(), inputs: ins, outputs: outs });
        assert(modules@.map_values(|m: Module| (m.typ, m.name@, strs(m.outputs@))) =~= mv.take(a + 1));
        targets.push(ts);
        on.push(false);
        memory.push(mem);
        a = a + 1;
    }
    let broadcaster = find_name(&modules, "broadcaster");
    let button = find_name(&modules, "button");
    proof {
        assert(mv.take(n as int) =~= mv);
        lemma_name_pos(mv, "broadcaster"@);
        lemma_name_pos(mv, "button"@);
    }
    let net = Network { modules, targets, on, memory, broadcaster, button };
    proof {
        assert(module_views(&net) =~= mv);
        assert(memory_views(&net).len() == mv.len());
    }
    Ok(net)
}

/// Reads the modules and presses the button a thousand times: the number
/// of low pulses times the number of high ones. `Ok(None)` when that takes
/// more than `steps` pulses or the product does not fit in `u64`.
/// The network the modules `ms` make, as the simulation reads it, run
/// for the thousand presses within `steps` pulses.
pub open spec fn outcome(ms: Seq<ModView>, steps: nat) -> Option<(Seq<bool>, Seq<Seq<(Option<usize>, bool)>>, nat, nat)> {
    sim(
        ms.map_values(|m: ModView| m.0),
        Seq::new(ms.len(), |i: int| Seq::new(ms[i].2.len(), |k: int| key_of(ms, ms[i].2[k]))),
        key_of(ms, "broadcaster"@),
        key_of(ms, "button"@),
        Seq::new(ms.len(), |i: int| false),
        Seq::new(ms.len(), |i: int| if ms[i].0 == ModuleType::Conjunction {
            initial_memory(ms, inputs_of(ms, ms[i].1))
        } else {
            Seq::empty()
        }),
        press_count(),
        Seq::empty(),
        steps,
    )
}

/// The network built from `ms` is what `outcome` simulates.
proof fn lemma_built_outcome(n: &Network, ms: Seq<ModView>, steps: nat)
    requires
        built_from(n, ms),
    ensures
        sim(kinds(n), target_views(n), n.broadcaster, n.button, n.on@, memory_views(n), press_count(), Seq::empty(), steps)
            == outcome(ms, steps),
{
    assert(module_views(n).len() == ms.len());
    assert(kinds(n) =~= ms.map_values(|m: ModView| m.0)) by {
        assert forall|i: int| 0 <= i < ms.len() implies kinds(n)[i] == ms[i].0 by {
            assert(module_views(n)[i] == ms[i]);
        }
    }
    assert(target_views(n) =~= Seq::new(ms.len(), |i: int| Seq::new(ms[i].2.len(), |k: int| key_of(ms, ms[i].2[k])))) by {
        assert forall|i: int| 0 <= i < ms.len() implies #[trigger] target_views(n)[i] =~= Seq::new(ms[i].2.len(), |k: int| key_of(ms, ms[i].2[k])) by {
            assert forall|k: int| 0 <= k < ms[i].2.len() implies target_views(n)[i][k] == key_of(ms, ms[i].2[k]) by {
                assert(n.targets@[i]@[k] == key_of(ms, ms[i].2[k]));
            }
        }
    }
    assert(n.on@ =~= Seq::new(ms.len(), |i: int| false)) by {
        assert forall|i: int| 0 <= i < ms.len() implies n.on@[i] == false by {
            assert(!n.on@[i]);
        }
    }
    assert(memory_views(n) =~= Seq::new(ms.len(), |i: int| if ms[i].0 == ModuleType::Conjunction {
        initial_memory(ms, inputs_of(ms, ms[i].1))
    } else {
        Seq::empty()
    }));
}

/// Reads the modules and runs the thousand presses within `steps` pulses:
/// `Ok(Some(low * high))` when the run ends in time and the product fits
/// in `u64`, `Ok(None)` otherwise; the reading's error when the lines do
/// not describe a network.
pub fn process(lines: &Vec<String>, steps: u64) -> (r: Result<Option<u64>, Error>)
    ensures
        modules_spec(strs(lines@)) matches Err(e) ==> r matches Err(x) && err_view(x) == e,
        modules_spec(strs(lines@)) matches Ok(ms) ==> r matches Ok(a) && match outcome(ms, steps as nat) {
            Some((_, _, low, high)) => if low * high <= u64::MAX {
                a == Some((low * high) as u64)
            } else {
                a is None
            },
            None => a is None,
        },
{
    let mut net = match read_input(lines) {
        Ok(n) => n,
        Err(e) => {
            return Err(e);
        },
    };
    proof {
        lemma_built_outcome(&net, modules_spec(strs(lines@))->Ok_0, steps as nat);
    }
    let ans = run(&mut net, steps);
    Ok(ans)
}
} // verus!
