//! Proboscidea Volcanium: valves joined by tunnels, each releasing pressure
//! once opened; find how much pressure can be released before time runs
//! out, alone or together with an elephant.
use vstd::prelude::*;
use vstd::arithmetic::power::{lemma_pow_positive, pow};
use priority_queue::PriorityQueue;
use std::collections::HashMap;
use crate::text::{find_char, find_spec, parse_i32, parse_int, split_str, split_spec, strip_prefix, trim, trimmed};

verus! {

/// What went wrong reading a valve.
#[derive(Clone, Copy, PartialEq, Eq, Structural, Debug)]
pub enum ErrorKind {
    MissingValve,
    MissingSpace,
    MissingRate,
    MissingSemicolon,
    MissingTunnels,
    InvalidNumber,
    InvalidName,
    InvalidTunnel,
}

/// An error, with the text it is about.
pub struct Error {
    pub kind: ErrorKind,
    pub text: String,
}

/// An error as its kind and text.
pub open spec fn err_view(e: Error) -> (ErrorKind, Seq<char>) {
    (e.kind, e.text@)
}

/// A valve: its name read in base 36, its flow rate and the valves its
/// tunnels lead to.
pub struct Valve {
    pub id: i64,
    pub rate: i32,
    pub tunnels: Vec<i64>,
}

/// A valve as its id, rate and tunnels.
pub open spec fn valve_view(v: Valve) -> (int, int, Seq<i64>) {
    (v.id as int, v.rate as int, v.tunnels@)
}

/// The value of `c` as a digit in base 36: `0` to `9`, then `a` to `z` or
/// `A` to `Z`.
pub open spec fn digit36(c: char) -> Option<int> {
    if '0' <= c && c <= '9' {
        Some((c as int) - ('0' as int))
    } else if 'a' <= c && c <= 'z' {
        Some((c as int) - ('a' as int) + 10)
    } else if 'A' <= c && c <= 'Z' {
        Some((c as int) - ('A' as int) + 10)
    } else {
        None
    }
}

/// Every character of `s` is a base-36 digit.
pub open spec fn all_digits36(s: Seq<char>) -> bool {
    forall|i: int| 0 <= i < s.len() ==> #[trigger] digit36(s[i]) is Some
}

/// The number that the base-36 digits `s` spell.
pub open spec fn value36(s: Seq<char>) -> int
    decreases s.len(),
{
    if s.len() == 0 {
        0
    } else {
        value36(s.drop_last()) * 36 + digit36(s.last())->0
    }
}

/// What reading `s` as an `i64` in base 36 gives: an optional sign, then one
/// or more base-36 digits and nothing else, within range.
pub open spec fn base36_value(s: Seq<char>) -> Option<int> {
    let v = if s.len() > 0 && (s[0] == '+' || s[0] == '-') {
        let d = s.drop_first();
        if d.len() > 0 && all_digits36(d) {
            Some(if s[0] == '-' { -value36(d) } else { value36(d) })
        } else {
            None
        }
    } else if s.len() > 0 && all_digits36(s) {
        Some(value36(s))
    } else {
        None
    };
    match v {
        Some(n) => if i64::MIN <= n <= i64::MAX { Some(n) } else { None },
        None => None,
    }
}

/// Reads an `i64` in base 36.
///
/// Calls `i64::from_str_radix` with radix 36; its documentation says that it
/// accepts an optional `+` or `-` followed by digits `0`-`9`, `a`-`z` or
/// `A`-`Z` and nothing else, and fails on anything else and on values out of
/// range. The contract states exactly that.
#[verifier::external_body]
fn parse_base36(s: &str) -> (r: Option<i64>)
    ensures
        r matches Some(n) ==> base36_value(s@) == Some(n as int),
        r is None ==> base36_value(s@) is None,
{
    i64::from_str_radix(s, 36).ok()
}

/// `s` starts with `p`.
pub open spec fn starts(s: Seq<char>, p: Seq<char>) -> bool {
    p.len() <= s.len() && s.take(p.len() as int) == p
}

/// `s` with every leading copy of the non-empty `p` removed.
pub open spec fn strip_all(s: Seq<char>, p: Seq<char>) -> Seq<char>
    decreases s.len(),
{
    if p.len() > 0 && starts(s, p) {
        strip_all(s.skip(p.len() as int), p)
    } else {
        s
    }
}

/// Removes every leading copy of `p`, as `str::trim_start_matches` does.
fn strip_repeated<'a>(s: &'a str, p: &str) -> (r: &'a str)
    requires
        p@.len() > 0,
    ensures
        r@ == strip_all(s@, p@),
{
    let mut t = s;
    while strip_prefix(t, p).is_some()
        invariant
            p@.len() > 0,
            strip_all(t@, p@) == strip_all(s@, p@),
        decreases t@.len(),
    {
        t = strip_prefix(t, p).unwrap();
    }
    t
}

/// The ids of the tunnel names, or the first name that does not read.
pub open spec fn tunnel_ids(ts: Seq<Seq<char>>) -> Result<Seq<i64>, Seq<char>>
    decreases ts.len(),
{
    if ts.len() == 0 {
        Ok(Seq::empty())
    } else {
        match tunnel_ids(ts.drop_last()) {
            Err(e) => Err(e),
            Ok(ids) => match base36_value(ts.last()) {
                None => Err(ts.last()),
                Some(v) => Ok(ids.push(v as i64)),
            },
        }
    }
}

/// The names in the tunnels part of a line, after the semicolon.
pub open spec fn tunnel_names(s: Seq<char>) -> Option<Seq<Seq<char>>> {
    if starts(s, "; tunnel leads to valve "@) {
        Some(seq![strip_all(s, "; tunnel leads to valve "@)])
    } else if starts(s, "; tunnels lead to valves "@) {
        Some(split_spec(strip_all(s, "; tunnels lead to valves "@), ", "@))
    } else {
        None
    }
}

/// What reading the line `s` gives: its valve, or the first thing wrong.
pub open spec fn parse_spec(s: Seq<char>) -> Result<(int, int, Seq<i64>), (ErrorKind, Seq<char>)> {
    if !starts(s, "Valve "@) {
        Err((ErrorKind::MissingValve, s))
    } else {
        let s1 = s.skip("Valve "@.len() as int);
        match find_spec(s1, ' ') {
            None => Err((ErrorKind::MissingSpace, s1)),
            Some(k) => {
                let name = s1.take(k);
                let s2 = s1.skip(k);
                if !starts(s2, " has flow rate="@) {
                    Err((ErrorKind::MissingRate, s2))
                } else {
                    let s3 = s2.skip(" has flow rate="@.len() as int);
                    match find_spec(s3, ';') {
                        None => Err((ErrorKind::MissingSemicolon, s3)),
                        Some(m) => {
                            let srate = s3.take(m);
                            let s4 = s3.skip(m);
                            match tunnel_names(s4) {
                                None => Err((ErrorKind::MissingTunnels, s4)),
                                Some(ts) => match parse_int(srate, true, i32::MIN as int, i32::MAX as int) {
                                    None => Err((ErrorKind::InvalidNumber, srate)),
                                    Some(rate) => match base36_value(name) {
                                        None => Err((ErrorKind::InvalidName, name)),
                                        Some(id) => match tunnel_ids(ts) {
                                            Err(t) => Err((ErrorKind::InvalidTunnel, t)),
                                            Ok(ids) => Ok((id, rate, ids)),
                                        },
                                    },
                                },
                            }
                        },
                    }
                }
            },
        }
    }
}

/// A result as a valve view or an error view.
pub open spec fn res_view(r: Result<Valve, Error>) -> Result<(int, int, Seq<i64>), (ErrorKind, Seq<char>)> {
    match r {
        Ok(v) => Ok(valve_view(v)),
        Err(e) => Err(err_view(e)),
    }
}

fn err(kind: ErrorKind, s: &str) -> (e: Error)
    ensures
        err_view(e) == (kind, s@),
{
    Error { kind, text: s.to_string() }
}

/// The ids of the tunnel names, or the first name that does not read.
fn read_tunnels(ts: &Vec<String>) -> (r: Result<Vec<i64>, Error>)
    ensures
        match tunnel_ids(ts@.map_values(|t: String| t@)) {
            Ok(ids) => r matches Ok(v) && v@ == ids,
            Err(t) => r matches Err(e) && err_view(e) == (ErrorKind::InvalidTunnel, t),
        },
{
    let ghost views = ts@.map_values(|t: String| t@);
    let mut v: Vec<i64> = Vec::new();
    let mut i: usize = 0;
    while i < ts.len()
        invariant
            views == ts@.map_values(|t: String| t@),
            i <= ts.len(),
            tunnel_ids(views.take(i as int)) == Ok::<Seq<i64>, Seq<char>>(v@),
        decreases ts.len() - i,
    {
        assert(views.take(i + 1).drop_last() =~= views.take(i as int));
        assert(views.take(i + 1).last() == ts@[i as int]@);
        match parse_base36(ts[i].as_str()) {
            Some(id) => {
                v.push(id);
            },
            None => {
                proof {
                    lemma_tunnel_error(views, i as int + 1, views.len() as int);
                    assert(views.take(views.len() as int) =~= views);
                }
                return Err(err(ErrorKind::InvalidTunnel, ts[i].as_str()));
            },
        }
        i = i + 1;
    }
    assert(views.take(i as int) =~= views);
    Ok(v)
}

proof fn lemma_tunnel_error(ts: Seq<Seq<char>>, k: int, n: int)
    requires
        0 <= k <= n <= ts.len(),
        tunnel_ids(ts.take(k)) is Err,
    ensures
        tunnel_ids(ts.take(n)) == tunnel_ids(ts.take(k)),
    decreases n - k,
{
    if k < n {
        lemma_tunnel_error(ts, k, n - 1);
        assert(ts.take(n).drop_last() =~= ts.take(n - 1));
    }
}

impl Valve {
    /// Reads a line such as `Valve AA has flow rate=0; tunnels lead to
    /// valves DD, II, BB`.
    pub fn parse(s: &str) -> (r: Result<Valve, Error>)
        ensures
            res_view(r) == parse_spec(s@),
    {
        let s1 = match strip_prefix(s, "Valve ") {
            Some(t) => t,
            None => {
                return Err(err(ErrorKind::MissingValve, s));
            },
        };
        let space = match find_char(s1, ' ') {
            Some(k) => k,
            None => {
                return Err(err(ErrorKind::MissingSpace, s1));
            },
        };
        let n1 = s1.unicode_len();
        let name = s1.substring_char(0, space);
        let s2 = s1.substring_char(space, n1);
        let s3 = match strip_prefix(s2, " has flow rate=") {
            Some(t) => t,
            None => {
                return Err(err(ErrorKind::MissingRate, s2));
            },
        };
        let semi = match find_char(s3, ';') {
            Some(m) => m,
            None => {
                return Err(err(ErrorKind::MissingSemicolon, s3));
            },
        };
        let n3 = s3.unicode_len();
        let srate = s3.substring_char(0, semi);
        let s4 = s3.substring_char(semi, n3);
        let one = "; tunnel leads to valve ";
        let many = "; tunnels lead to valves ";
        proof {
            reveal_strlit("; tunnel leads to valve ");
            reveal_strlit("; tunnels lead to valves ");
            reveal_strlit(", ");
        }
        let stunnels: Vec<String> = if strip_prefix(s4, one).is_some() {
            let t = strip_repeated(s4, one);
            let mut v: Vec<String> = Vec::new();
            v.push(t.to_string());
            v
        } else if strip_prefix(s4, many).is_some() {
            let t = strip_repeated(s4, many);
            split_str(t, ", ")
        } else {
            return Err(err(ErrorKind::MissingTunnels, s4));
        };
        proof {
            assert(tunnel_names(s4@) is Some);
            assert(stunnels@.map_values(|t: String| t@) =~= tunnel_names(s4@)->0);
        }
        let rate = match parse_i32(srate) {
            Some(r) => r,
            None => {
                return Err(err(ErrorKind::InvalidNumber, srate));
            },
        };
        let id = match parse_base36(name) {
            Some(i) => i,
            None => {
                return Err(err(ErrorKind::InvalidName, name));
            },
        };
        let tunnels = match read_tunnels(&stunnels) {
            Ok(t) => t,
            Err(e) => {
                return Err(e);
            },
        };
        Ok(Valve { id, rate, tunnels })
    }
}


/// A valve's id, rate and tunnels, for each valve.
pub open spec fn valves_view(vs: Seq<Valve>) -> Seq<(int, int, Seq<i64>)> {
    vs.map_values(|v: Valve| valve_view(v))
}

/// No two valves share an id.
pub open spec fn distinct_ids(vs: Seq<(int, int, Seq<i64>)>) -> bool {
    forall|i: int, j: int| 0 <= i < j < vs.len() ==> vs[i].0 != vs[j].0
}

/// The first valve with the given id.
pub open spec fn index_of_id(vs: Seq<(int, int, Seq<i64>)>, id: int) -> Option<int>
    decreases vs.len(),
{
    if vs.len() == 0 {
        None
    } else {
        match index_of_id(vs.drop_last(), id) {
            Some(k) => Some(k),
            None => if vs.last().0 == id { Some(vs.len() - 1) } else { None },
        }
    }
}

/// The valves after adding `v`: it replaces the valve with its id, or
/// else comes last.
pub open spec fn insert_valve(vs: Seq<(int, int, Seq<i64>)>, v: (int, int, Seq<i64>)) -> Seq<(int, int, Seq<i64>)> {
    match index_of_id(vs, v.0) {
        Some(k) => vs.update(k, v),
        None => vs.push(v),
    }
}

/// What reading the lines gives: every line that is not blank, trimmed, is
/// a valve, and a later valve replaces an earlier one with the same id.
pub open spec fn read_spec(lines: Seq<Seq<char>>) -> Result<Seq<(int, int, Seq<i64>)>, (ErrorKind, Seq<char>)>
    decreases lines.len(),
{
    if lines.len() == 0 {
        Ok(Seq::empty())
    } else {
        match read_spec(lines.drop_last()) {
            Err(e) => Err(e),
            Ok(vs) => {
                let t = trimmed(lines.last());
                if t.len() == 0 {
                    Ok(vs)
                } else {
                    match parse_spec(t) {
                        Err(e) => Err(e),
                        Ok(v) => Ok(insert_valve(vs, v)),
                    }
                }
            },
        }
    }
}

proof fn lemma_index_of_id(vs: Seq<(int, int, Seq<i64>)>, id: int)
    ensures
        index_of_id(vs, id) matches Some(k) ==> 0 <= k < vs.len() && vs[k].0 == id && forall|j: int|
            0 <= j < k ==> vs[j].0 != id,
        index_of_id(vs, id) is None ==> forall|j: int| 0 <= j < vs.len() ==> vs[j].0 != id,
    decreases vs.len(),
{
    if vs.len() > 0 {
        let p = vs.drop_last();
        lemma_index_of_id(p, id);
        assert forall|j: int| 0 <= j < p.len() implies p[j] == vs[j] by {}
        match index_of_id(p, id) {
            Some(k) => {
                assert(index_of_id(vs, id) == Some(k));
            },
            None => {
                if vs.last().0 == id {
                    assert(index_of_id(vs, id) == Some(vs.len() - 1));
                } else {
                    assert(index_of_id(vs, id) is None);
                    assert forall|j: int| 0 <= j < vs.len() implies vs[j].0 != id by {
                        if j < p.len() {
                            assert(p[j].0 != id);
                        }
                    }
                }
            },
        }
    }
}

proof fn lemma_read_error(lines: Seq<Seq<char>>, k: int, n: int)
    requires
        0 <= k <= n <= lines.len(),
        read_spec(lines.take(k)) is Err,
    ensures
        read_spec(lines.take(n)) == read_spec(lines.take(k)),
    decreases n - k,
{
    if k < n {
        lemma_read_error(lines, k, n - 1);
        assert(lines.take(n).drop_last() =~= lines.take(n - 1));
    }
}

/// Reads the valves, one a line; blank lines are skipped, and a later valve
/// replaces an earlier one with the same id.
pub fn read_input(lines: &Vec<String>) -> (r: Result<Vec<Valve>, Error>)
    ensures
        match read_spec(lines@.map_values(|l: String| l@)) {
            Ok(vs) => r matches Ok(v) && valves_view(v@) == vs && distinct_ids(vs),
            Err(e) => r matches Err(x) && err_view(x) == e,
        },
{
    let ghost ls = lines@.map_values(|l: String| l@);
    let mut valves: Vec<Valve> = Vec::new();
    let mut i: usize = 0;
    assert(ls.take(0) =~= Seq::<Seq<char>>::empty());
    assert(valves_view(valves@) =~= Seq::<(int, int, Seq<i64>)>::empty());
    while i < lines.len()
        invariant
            ls == lines@.map_values(|l: String| l@),
            i <= lines.len(),
            read_spec(ls.take(i as int)) == Ok::<Seq<(int, int, Seq<i64>)>, (ErrorKind, Seq<char>)>(valves_view(valves@)),
            distinct_ids(valves_view(valves@)),
        decreases lines.len() - i,
    {
        assert(ls.take(i + 1).drop_last() =~= ls.take(i as int));
        assert(ls.take(i + 1).last() == lines@[i as int]@);
        let t = trim(lines[i].as_str());
        if t.unicode_len() > 0 {
            match Valve::parse(t) {
                Err(e) => {
                    proof {
                        lemma_read_error(ls, i + 1, ls.len() as int);
                        assert(ls.take(ls.len() as int) =~= ls);
                    }
                    return Err(e);
                },
                Ok(v) => {
                    let ghost before = valves_view(valves@);
                    proof {
                        lemma_index_of_id(before, v.id as int);
                    }
                    let mut k: usize = 0;
                    while k < valves.len() && valves[k].id != v.id
                        invariant
                            k <= valves.len(),
                            before == valves_view(valves@),
                            forall|j: int| 0 <= j < k ==> before[j].0 != v.id,
                        decreases valves.len() - k,
                    {
                        k = k + 1;
                    }
                    if k < valves.len() {
                        proof {
                            let x = index_of_id(before, v.id as int);
                            assert(before[k as int].0 == v.id);
                            assert(x is Some);
                            if x->0 < k {
                                assert(before[x->0].0 != v.id);
                            }
                            if x->0 > k {
                                assert(before[k as int].0 != v.id);
                            }
                        }
                        valves.set(k, v);
                        assert(valves_view(valves@) =~= before.update(k as int, valve_view(v)));
                    } else {
                        valves.push(v);
                        assert(valves_view(valves@) =~= before.push(valve_view(v)));
                    }
                },
            }
        }
        i = i + 1;
    }
    assert(ls.take(i as int) =~= ls);
    Ok(valves)
}

/// The valves whose rate is above zero, in order.
pub open spec fn useful(vs: Seq<(int, int, Seq<i64>)>) -> Seq<(int, int, Seq<i64>)>
    decreases vs.len(),
{
    if vs.len() == 0 {
        Seq::empty()
    } else if vs.last().1 > 0 {
        useful(vs.drop_last()).push(vs.last())
    } else {
        useful(vs.drop_last())
    }
}

/// Copies the valves that release pressure.
pub fn get_useful_valves(valves: &Vec<Valve>) -> (r: Vec<Valve>)
    ensures
        valves_view(r@) == useful(valves_view(valves@)),
{
    let ghost all = valves_view(valves@);
    let mut r: Vec<Valve> = Vec::new();
    let mut i: usize = 0;
    while i < valves.len()
        invariant
            all == valves_view(valves@),
            i <= valves.len(),
            valves_view(r@) == useful(all.take(i as int)),
        decreases valves.len() - i,
    {
        assert(all.take(i + 1).drop_last() =~= all.take(i as int));
        let v = &valves[i];
        if v.rate > 0 {
            let ghost before = valves_view(r@);
            r.push(Valve { id: v.id, rate: v.rate, tunnels: v.tunnels.clone() });
            assert(valves_view(r@) =~= before.push(valve_view(*v)));
        }
        i = i + 1;
    }
    assert(all.take(i as int) =~= all);
    r
}

/// `w` is a walk through the tunnels: valve indices, each joined to the
/// next by a tunnel.
pub open spec fn is_walk(vs: Seq<(int, int, Seq<i64>)>, w: Seq<int>) -> bool {
    &&& w.len() >= 1
    &&& forall|k: int| 0 <= k < w.len() ==> 0 <= #[trigger] w[k] < vs.len()
    &&& forall|k: int| 0 <= k < w.len() - 1 ==> vs[#[trigger] w[k]].2.contains(vs[w[k + 1]].0 as i64) && first_with(vs, w[k + 1])
}

/// Valve `j` is the first with its id: a tunnel to that id leads to it.
pub open spec fn first_with(vs: Seq<(int, int, Seq<i64>)>, j: int) -> bool {
    forall|t: int| 0 <= t < j ==> #[trigger] vs[t].0 != vs[j].0
}

/// Every valve the walk passes between its ends is below index `k`.
pub open spec fn through(w: Seq<int>, k: int) -> bool {
    forall|t: int| 0 < t < w.len() - 1 ==> #[trigger] w[t] < k
}

/// Every walk from `a` to `b` of at most `i32::MAX` tunnels passing only
/// valves below `k` is at least as long as the distance held for them.
pub open spec fn bounded_at(vs: Seq<(int, int, Seq<i64>)>, dist: Seq<Option<i32>>, k: int, a: int, b: int) -> bool {
    forall|w: Seq<int>|
        #![trigger is_walk(vs, w), through(w, k)]
        is_walk(vs, w) && w[0] == a && w.last() == b && through(w, k) && w.len() - 1 <= i32::MAX ==> match dist[a
            * vs.len() + b] {
            Some(d) => d <= w.len() - 1,
            None => false,
        }
}

/// `bounded_at` holds for every two distinct valves.
pub open spec fn complete_below(vs: Seq<(int, int, Seq<i64>)>, dist: Seq<Option<i32>>, k: int) -> bool {
    forall|a: int, b: int| 0 <= a < vs.len() && 0 <= b < vs.len() && a != b ==> #[trigger] bounded_at(vs, dist, k, a, b)
}

/// The distances are the least: between two distinct valves, every walk of
/// at most `i32::MAX` tunnels is at least as long as the distance held,
/// which is there whenever such a walk is.
pub open spec fn adj_least(vs: Seq<(int, int, Seq<i64>)>, dist: Seq<Option<i32>>) -> bool {
    forall|a: int, b: int, l: int|
        0 <= a < vs.len() && 0 <= b < vs.len() && a != b && #[trigger] walk_of(vs, a, b, l) && l <= i32::MAX ==> match #[trigger] dist[a
            * vs.len() + b] {
            Some(d) => d <= l,
            None => false,
        }
}

/// The part of a walk from its `i`-th to its `j`-th valve is a walk.
proof fn lemma_sub_walk(vs: Seq<(int, int, Seq<i64>)>, w: Seq<int>, i: int, j: int)
    requires
        is_walk(vs, w),
        0 <= i <= j < w.len(),
    ensures
        is_walk(vs, w.subrange(i, j + 1)),
        w.subrange(i, j + 1)[0] == w[i],
        w.subrange(i, j + 1).last() == w[j],
{
    let s = w.subrange(i, j + 1);
    assert forall|k: int| 0 <= k < s.len() - 1 implies vs[#[trigger] s[k]].2.contains(vs[s[k + 1]].0 as i64) && first_with(vs, s[k + 1]) by {
        assert(s[k] == w[i + k] && s[k + 1] == w[i + k + 1]);
    }
    assert forall|k: int| 0 <= k < s.len() implies 0 <= #[trigger] s[k] < vs.len() by {
        assert(s[k] == w[i + k]);
    }
}

/// The first place `x` comes in `w`, at or before `t`.
proof fn lemma_first_at(w: Seq<int>, x: int, t: int) -> (f: int)
    requires
        0 <= t < w.len(),
        w[t] == x,
    ensures
        0 <= f <= t,
        w[f] == x,
        forall|u: int| 0 <= u < f ==> w[u] != x,
    decreases t,
{
    if exists|u: int| 0 <= u < t && w[u] == x {
        let u = choose|u: int| 0 <= u < t && w[u] == x;
        lemma_first_at(w, x, u)
    } else {
        t
    }
}

/// The last place `x` comes in `w`, at or after `t`.
proof fn lemma_last_at(w: Seq<int>, x: int, t: int) -> (l: int)
    requires
        0 <= t < w.len(),
        w[t] == x,
    ensures
        t <= l < w.len(),
        w[l] == x,
        forall|u: int| l < u < w.len() ==> w[u] != x,
    decreases w.len() - t,
{
    if exists|u: int| t < u < w.len() && w[u] == x {
        let u = choose|u: int| t < u < w.len() && w[u] == x;
        lemma_last_at(w, x, u)
    } else {
        t
    }
}

/// A walk that starts or ends at `m` and passes only valves up to `m` can
/// be cut to one that passes only valves below `m`.
#[verifier::spinoff_prover]
#[verifier::rlimit(100)]
proof fn lemma_end_at_mid(vs: Seq<(int, int, Seq<i64>)>, dist: Seq<Option<i32>>, m: int, a: int, b: int)
    requires
        complete_below(vs, dist, m),
        0 <= a < vs.len(),
        0 <= b < vs.len(),
        a != b,
        a == m || b == m,
    ensures
        bounded_at(vs, dist, m + 1, a, b),
{
    assert forall|w: Seq<int>|
        is_walk(vs, w) && w[0] == a && w.last() == b && through(w, m + 1) && w.len() - 1 <= i32::MAX implies match dist[a
            * vs.len() + b] {
            Some(d) => d <= w.len() - 1,
            None => false,
        } by {
        assert(bounded_at(vs, dist, m, a, b));
        let n = w.len() as int;
        if a == m {
            let l = lemma_last_at(w, m, 0);
            assert(l < n - 1);
            lemma_sub_walk(vs, w, l, n - 1);
            let s = w.subrange(l, n);
            assert(through(s, m)) by {
                assert forall|t: int| 0 < t < s.len() - 1 implies #[trigger] s[t] < m by {
                    assert(s[t] == w[l + t]);
                }
            }
            assert(is_walk(vs, s) && through(s, m));
        } else {
            let f = lemma_first_at(w, m, n - 1);
            assert(f > 0);
            lemma_sub_walk(vs, w, 0, f);
            let s = w.subrange(0, f + 1);
            assert(through(s, m)) by {
                assert forall|t: int| 0 < t < s.len() - 1 implies #[trigger] s[t] < m by {
                    assert(s[t] == w[t]);
                }
            }
            assert(is_walk(vs, s) && through(s, m));
        }
    }
}

/// A walk between two valves other than `m`, passing only valves up to
/// `m`, either passes only valves below `m`, or splits at `m` into two such
/// walks no longer together.
#[verifier::spinoff_prover]
#[verifier::rlimit(100)]
proof fn lemma_split_at_mid(vs: Seq<(int, int, Seq<i64>)>, w: Seq<int>, m: int) -> (r: Option<(Seq<int>, Seq<int>)>)
    requires
        is_walk(vs, w),
        through(w, m + 1),
        w[0] != m,
        w.last() != m,
    ensures
        r is None ==> through(w, m),
        r matches Some((w1, w2)) ==> {
            &&& is_walk(vs, w1) && w1[0] == w[0] && w1.last() == m && through(w1, m)
            &&& is_walk(vs, w2) && w2[0] == m && w2.last() == w.last() && through(w2, m)
            &&& (w1.len() - 1) + (w2.len() - 1) <= w.len() - 1
        },
{
    if exists|t: int| 0 < t < w.len() - 1 && w[t] == m {
        let t = choose|t: int| 0 < t < w.len() - 1 && w[t] == m;
        let n = w.len() as int;
        let f = lemma_first_at(w, m, t);
        let l = lemma_last_at(w, m, t);
        lemma_sub_walk(vs, w, 0, f);
        lemma_sub_walk(vs, w, l, n - 1);
        let w1 = w.subrange(0, f + 1);
        let w2 = w.subrange(l, n);
        assert forall|u: int| 0 < u < w1.len() - 1 implies #[trigger] w1[u] < m by {
            assert(w1[u] == w[u]);
        }
        assert forall|u: int| 0 < u < w2.len() - 1 implies #[trigger] w2[u] < m by {
            assert(w2[u] == w[l + u]);
        }
        Some((w1, w2))
    } else {
        None
    }
}

/// Some walk goes from valve `i` to valve `j` through `d` tunnels.
pub open spec fn walk_of(vs: Seq<(int, int, Seq<i64>)>, i: int, j: int, d: int) -> bool {
    exists|w: Seq<int>| is_walk(vs, w) && w[0] == i && w.last() == j && w.len() == d + 1
}

/// Distances between the valves: the distance from the `i`-th to the
/// `j`-th valve is at `i * n + j`.
pub struct Adjacency {
    pub ids: Vec<i64>,
    pub dist: Vec<Option<i32>>,
}

/// The distance the adjacency holds between two valve ids.
pub open spec fn dist_of(ids: Seq<i64>, dist: Seq<Option<i32>>, from: i64, to: i64) -> Option<int> {
    match (ids.index_of_first(from), ids.index_of_first(to)) {
        (Some(i), Some(j)) => match dist[i * ids.len() + j] {
            Some(d) => Some(d as int),
            None => None,
        },
        _ => None,
    }
}

proof fn lemma_cell(n: int, i: int, j: int)
    requires
        0 <= i < n,
        0 <= j < n,
    ensures
        0 <= i * n + j < n * n,
        forall|a: int, b: int| 0 <= a < n && 0 <= b < n && (a != i || b != j) ==> #[trigger] (a * n + b) != i * n + j,
{
    assert(0 <= i * n + j < n * n) by (nonlinear_arith)
        requires
            0 <= i < n,
            0 <= j < n,
    ;
    assert forall|a: int, b: int| 0 <= a < n && 0 <= b < n && (a != i || b != j) implies #[trigger] (a * n + b) != i * n
        + j by {
        if a < i {
            assert(a * n + b < i * n + j) by (nonlinear_arith)
                requires
                    0 <= a < i,
                    0 <= b < n,
                    0 <= j,
            ;
        } else if a > i {
            assert(a * n + b > i * n + j) by (nonlinear_arith)
                requires
                    0 <= i < a,
                    0 <= j < n,
                    0 <= b,
            ;
        }
    }
}

proof fn lemma_set_sound(vs: Seq<(int, int, Seq<i64>)>, dist: Seq<Option<i32>>, i: int, j: int, v: Option<i32>)
    requires
        adj_sound(vs, dist),
        0 <= i < vs.len(),
        0 <= j < vs.len(),
        v matches Some(d) ==> i != j ==> d >= 1 && walk_of(vs, i, j, d as int),
    ensures
        adj_sound(vs, dist.update(i * vs.len() + j, v)),
{
    let n = vs.len() as int;
    lemma_cell(n, i, j);
    let nd = dist.update(i * n + j, v);
    assert forall|a: int, b: int| 0 <= a < n && 0 <= b < n && a != b implies (#[trigger] nd[a * n + b] matches Some(d)
        ==> d >= 1 && walk_of(vs, a, b, d as int)) by {
        lemma_cell(n, a, b);
        if a != i || b != j {
            assert(a * n + b != i * n + j);
            assert(nd[a * n + b] == dist[a * n + b]);
        }
    }
}

/// The position of the valve with id `id`.
fn find_id(valves: &Vec<Valve>, id: i64) -> (r: Option<usize>)
    ensures
        r matches Some(k) ==> k < valves.len() && valves@[k as int].id == id && forall|j: int| 0 <= j < k ==> valves@[j].id != id,
        r is None ==> forall|k: int| 0 <= k < valves.len() ==> valves@[k].id != id,
{
    let mut k: usize = 0;
    while k < valves.len()
        invariant
            k <= valves.len(),
            forall|j: int| 0 <= j < k ==> valves@[j].id != id,
        decreases valves.len() - k,
    {
        if valves[k].id == id {
            return Some(k);
        }
        k = k + 1;
    }
    None
}

/// The adjacency's distances are sound: each distance between two valves
/// is the length of a walk between them, and a valve is at distance zero
/// from itself.
pub open spec fn adj_sound(vs: Seq<(int, int, Seq<i64>)>, dist: Seq<Option<i32>>) -> bool {
    &&& dist.len() == vs.len() * vs.len()
    &&& forall|i: int, j: int| 0 <= i < vs.len() && 0 <= j < vs.len() && i != j ==>
        (#[trigger] dist[i * vs.len() + j] matches Some(d) ==> d >= 1 && walk_of(vs, i, j, d as int))
}

/// A tunnel leads from valve `a` to valve `b`.
pub open spec fn edge(vs: Seq<(int, int, Seq<i64>)>, a: int, b: int) -> bool {
    vs[a].2.contains(vs[b].0 as i64) && first_with(vs, b)
}

/// One distance may replace another: it is there whenever the other is,
/// and no longer.
pub open spec fn improves(o: Option<i32>, n: Option<i32>) -> bool {
    match o {
        Some(x) => n matches Some(y) && y <= x,
        None => true,
    }
}

proof fn lemma_improve(vs: Seq<(int, int, Seq<i64>)>, dist: Seq<Option<i32>>, dist2: Seq<Option<i32>>, k: int, a: int, b: int)
    requires
        bounded_at(vs, dist, k, a, b),
        improves(dist[a * vs.len() + b], dist2[a * vs.len() + b]),
    ensures
        bounded_at(vs, dist2, k, a, b),
{
    assert forall|w: Seq<int>|
        is_walk(vs, w) && w[0] == a && w.last() == b && through(w, k) && w.len() - 1 <= i32::MAX implies match dist2[a
            * vs.len() + b] {
            Some(d) => d <= w.len() - 1,
            None => false,
        } by {
        assert(is_walk(vs, w) && through(w, k));
    }
}

/// Only the cell at `idx` changed, and it improved.
proof fn lemma_improve_all(vs: Seq<(int, int, Seq<i64>)>, dist: Seq<Option<i32>>, dist2: Seq<Option<i32>>, idx: int, k: int)
    requires
        dist.len() == vs.len() * vs.len(),
        0 <= idx < dist.len(),
        dist2 == dist.update(idx, dist2[idx]),
        improves(dist[idx], dist2[idx]),
        complete_below(vs, dist, k),
    ensures
        complete_below(vs, dist2, k),
        forall|a: int, b: int| 0 <= a < vs.len() && 0 <= b < vs.len() && bounded_at(vs, dist, k + 1, a, b) ==> #[trigger] bounded_at(vs, dist2, k + 1, a, b),
{
    let n = vs.len() as int;
    assert forall|a: int, b: int| 0 <= a < n && 0 <= b < n implies #[trigger] improves(dist[a * n + b], dist2[a * n + b]) by {
        lemma_cell(n, a, b);
        if a * n + b != idx {
            assert(dist2[a * n + b] == dist[a * n + b]);
        }
    }
    assert forall|a: int, b: int| 0 <= a < n && 0 <= b < n && a != b implies #[trigger] bounded_at(vs, dist2, k, a, b) by {
        assert(bounded_at(vs, dist, k, a, b));
        lemma_improve(vs, dist, dist2, k, a, b);
    }
    assert forall|a: int, b: int| 0 <= a < n && 0 <= b < n && bounded_at(vs, dist, k + 1, a, b) implies #[trigger] bounded_at(vs, dist2, k + 1, a, b) by {
        lemma_improve(vs, dist, dist2, k + 1, a, b);
    }
}

/// With a one-tunnel distance for every tunnel, walks passing no valve
/// between their ends are covered.
proof fn lemma_base(vs: Seq<(int, int, Seq<i64>)>, dist: Seq<Option<i32>>)
    requires
        forall|a: int, b: int| 0 <= a < vs.len() && 0 <= b < vs.len() && a != b && #[trigger] edge(vs, a, b) ==> dist[a * vs.len() + b] == Some(1i32),
    ensures
        complete_below(vs, dist, 0),
{
    assert forall|a: int, b: int| 0 <= a < vs.len() && 0 <= b < vs.len() && a != b implies #[trigger] bounded_at(vs, dist, 0, a, b) by {
        assert forall|w: Seq<int>|
            is_walk(vs, w) && w[0] == a && w.last() == b && through(w, 0) && w.len() - 1 <= i32::MAX implies match dist[a
                * vs.len() + b] {
                Some(d) => d <= w.len() - 1,
                None => false,
            } by {
            if w.len() > 2 {
                assert(w[1] < 0);
            }
            assert(w.len() == 2);
            assert(vs[w[0]].2.contains(vs[w[1]].0 as i64) && first_with(vs, w[1]));
            assert(edge(vs, a, b));
        }
    }
}

/// Computes, by Floyd and Warshall's method, the distance in tunnels
/// between every two valves: for two distinct valves, the length of the
/// shortest walk between them, and none when no walk of at most
/// `i32::MAX` tunnels joins them; zero from a valve to itself. A tunnel
/// leads to the first valve with its target's id.
#[verifier::rlimit(60)]
#[verifier::spinoff_prover]
pub fn build_adj(valves: &Vec<Valve>) -> (r: Adjacency)
    requires
        valves.len() * valves.len() <= usize::MAX,
    ensures
        r.ids@ == valves@.map_values(|v: Valve| v.id),
        adj_sound(valves_view(valves@), r.dist@),
        adj_least(valves_view(valves@), r.dist@),
        forall|i: int| 0 <= i < valves.len() ==> #[trigger] r.dist@[i * valves.len() + i] == Some(0i32),
{
    let ghost vs = valves_view(valves@);
    let n = valves.len();
    let mut dist: Vec<Option<i32>> = Vec::new();
    let mut k: usize = 0;
    while k < n * n
        invariant
            n == valves.len(),
            n * n <= usize::MAX,
            k <= n * n,
            dist@.len() == k,
            forall|x: int| 0 <= x < k ==> #[trigger] dist@[x] is None,
        decreases n * n - k,
    {
        dist.push(None);
        k = k + 1;
    }
    proof {
        assert forall|a: int, b: int| 0 <= a < n && 0 <= b < n && a != b implies (#[trigger] dist@[a * n + b] matches Some(
            d,
        ) ==> d >= 1 && walk_of(vs, a, b, d as int)) by {
            lemma_cell(n as int, a, b);
        }
    }
    let mut i: usize = 0;
    while i < n
        invariant
            vs == valves_view(valves@),
            n == valves.len(),
            n * n <= usize::MAX,
            i <= n,
            adj_sound(vs, dist@),
            forall|a: int, b: int| 0 <= a < i && 0 <= b < n && a != b && #[trigger] edge(vs, a, b) ==> dist@[a * n + b] == Some(1i32),
        decreases n - i,
    {
        let mut t: usize = 0;
        while t < valves[i].tunnels.len()
            invariant
                vs == valves_view(valves@),
                n == valves.len(),
                n * n <= usize::MAX,
                i < n,
                t <= valves@[i as int].tunnels.len(),
                adj_sound(vs, dist@),
                forall|a: int, b: int| 0 <= a < i && 0 <= b < n && a != b && #[trigger] edge(vs, a, b) ==> dist@[a * n + b] == Some(1i32),
                forall|u: int, b: int| #![trigger vs[i as int].2[u], first_with(vs, b)] 0 <= u < t && 0 <= b < n && b != i && first_with(vs, b) && vs[i as int].2[u] == vs[b].0 ==> dist@[i * n + b] == Some(1i32),
            decreases valves@[i as int].tunnels.len() - t,
        {
            let target = valves[i].tunnels[t];
            proof {
                assert(vs[i as int].2 == valves@[i as int].tunnels@);
            }
            let ghost before = dist@;
            match find_id(valves, target) {
                Some(j) => {
                    proof {
                        lemma_cell(n as int, i as int, j as int);
                    }
                    if i != j {
                        proof {
                            let w = seq![i as int, j as int];
                            assert(vs[i as int].2.contains(vs[j as int].0 as i64)) by {
                                assert(vs[i as int].2[t as int] == target);
                            }
                            assert(first_with(vs, j as int));
                            assert(is_walk(vs, w));
                            assert(walk_of(vs, i as int, j as int, 1));
                            lemma_set_sound(vs, dist@, i as int, j as int, Some(1i32));
                        }
                        dist.set(i * n + j, Some(1));
                    }
                    proof {
                        assert forall|a: int, b: int| 0 <= a < i && 0 <= b < n && a != b && #[trigger] edge(vs, a, b) implies dist@[a * n + b]
                            == Some(1i32) by {
                            lemma_cell(n as int, a, b);
                            assert(before[a * n + b] == Some(1i32));
                        }
                        assert forall|u: int, b: int| #![trigger vs[i as int].2[u], first_with(vs, b)] 0 <= u < t + 1 && 0 <= b < n && b != i && first_with(vs, b) && vs[i as int].2[u]
                            == vs[b].0 implies dist@[i * n + b] == Some(1i32) by {
                            lemma_cell(n as int, i as int, b);
                            if u == t {
                                if b < j {
                                    assert(valves@[b].id == vs[b].0);
                                } else if j < b {
                                    assert(vs[j as int].0 == target);
                                }
                                assert(b == j);
                            } else {
                                assert(before[i * n + b] == Some(1i32));
                            }
                        }
                    }
                },
                None => {
                    proof {
                        assert forall|u: int, b: int| #![trigger vs[i as int].2[u], first_with(vs, b)] 0 <= u < t + 1 && 0 <= b < n && b != i && first_with(vs, b) && vs[i as int].2[u]
                            == vs[b].0 implies dist@[i * n + b] == Some(1i32) by {
                            if u == t {
                                assert(valves@[b].id == vs[b].0);
                            }
                        }
                    }
                },
            }
            t = t + 1;
        }
        proof {
            assert forall|a: int, b: int| 0 <= a < i + 1 && 0 <= b < n && a != b && #[trigger] edge(vs, a, b) implies dist@[a * n + b]
                == Some(1i32) by {
                if a == i {
                    let u = choose|u: int| 0 <= u < vs[i as int].2.len() && vs[i as int].2[u] == vs[b].0 as i64;
                    assert(vs[i as int].2[u] == vs[b].0);
                }
            }
        }
        i = i + 1;
    }
    proof {
        lemma_base(vs, dist@);
    }
    let mut mid: usize = 0;
    while mid < n
        invariant
            vs == valves_view(valves@),
            n == valves.len(),
            n * n <= usize::MAX,
            mid <= n,
            adj_sound(vs, dist@),
            complete_below(vs, dist@, mid as int),
        decreases n - mid,
    {
        let mut start: usize = 0;
        while start < n
            invariant
                vs == valves_view(valves@),
                n == valves.len(),
                n * n <= usize::MAX,
                mid < n,
                start <= n,
                adj_sound(vs, dist@),
                complete_below(vs, dist@, mid as int),
                forall|a: int, b: int| 0 <= a < start && 0 <= b < n && a != b ==> #[trigger] bounded_at(vs, dist@, mid + 1, a, b),
            decreases n - start,
        {
            if start != mid {
                let mut end: usize = 0;
                while end < n
                    invariant
                        vs == valves_view(valves@),
                        n == valves.len(),
                        n * n <= usize::MAX,
                        mid < n,
                        start < n,
                        start != mid,
                        end <= n,
                        adj_sound(vs, dist@),
                        complete_below(vs, dist@, mid as int),
                        forall|a: int, b: int| 0 <= a < start && 0 <= b < n && a != b ==> #[trigger] bounded_at(vs, dist@, mid + 1, a, b),
                        forall|b: int| 0 <= b < end && b != start ==> #[trigger] bounded_at(vs, dist@, mid + 1, start as int, b),
                    decreases n - end,
                {
                    if end != start && end != mid {
                        proof {
                            lemma_cell(n as int, start as int, mid as int);
                            lemma_cell(n as int, mid as int, end as int);
                            lemma_cell(n as int, start as int, end as int);
                        }
                        let ghost before = dist@;
                        let p1 = dist[start * n + mid];
                        let p2 = dist[mid * n + end];
                        let p = dist[start * n + end];
                        let cand: Option<i32> = match (p1, p2) {
                            (Some(d1), Some(d2)) => d1.checked_add(d2),
                            _ => None,
                        };
                        let better = match cand {
                            Some(sum) => match p {
                                Some(d) => sum < d,
                                None => true,
                            },
                            None => false,
                        };
                        if better {
                            let sum = cand.unwrap();
                            proof {
                                let d1 = p1.unwrap();
                                let d2 = p2.unwrap();
                                assert(walk_of(vs, start as int, mid as int, d1 as int));
                                assert(walk_of(vs, mid as int, end as int, d2 as int));
                                let w1 = choose|w: Seq<int>| is_walk(vs, w) && w[0] == start as int && w.last() == mid as int
                                    && w.len() == d1 + 1;
                                let w2 = choose|w: Seq<int>| is_walk(vs, w) && w[0] == mid as int && w.last() == end as int
                                    && w.len() == d2 + 1;
                                let w = w1 + w2.drop_first();
                                assert forall|k: int| 0 <= k < w.len() - 1 implies vs[#[trigger] w[k]].2.contains(vs[w[k + 1]].0 as i64) && first_with(vs, w[k + 1]) by {
                                    if k < w1.len() - 1 {
                                        assert(w[k] == w1[k] && w[k + 1] == w1[k + 1]);
                                    } else if k == w1.len() - 1 {
                                        assert(w[k] == w2[0] && w[k + 1] == w2[1]);
                                    } else {
                                        assert(w[k] == w2[k - w1.len() + 1] && w[k + 1] == w2[k - w1.len() + 2]);
                                    }
                                }
                                assert forall|k: int| 0 <= k < w.len() implies 0 <= #[trigger] w[k] < vs.len() by {
                                    if k >= w1.len() {
                                        assert(w[k] == w2[k - w1.len() + 1]);
                                    }
                                }
                                assert(is_walk(vs, w));
                                assert(w.last() == end as int);
                                assert(walk_of(vs, start as int, end as int, sum as int));
                                lemma_set_sound(vs, dist@, start as int, end as int, Some(sum));
                            }
                            dist.set(start * n + end, Some(sum));
                            proof {
                                lemma_improve_all(vs, before, dist@, start * n + end, mid as int);
                            }
                        }
                        proof {
                            let idx = start * n + end;
                            assert(improves(before[idx], dist@[idx]));
                            assert forall|w: Seq<int>|
                                is_walk(vs, w) && w[0] == start as int && w.last() == end as int && through(w, mid + 1) && w.len() - 1 <= i32::MAX implies match dist@[start
                                    * n + end] {
                                    Some(d) => d <= w.len() - 1,
                                    None => false,
                                } by {
                                match lemma_split_at_mid(vs, w, mid as int) {
                                    None => {
                                        assert(bounded_at(vs, before, mid as int, start as int, end as int));
                                        assert(is_walk(vs, w) && through(w, mid as int));
                                    },
                                    Some((w1, w2)) => {
                                        assert(bounded_at(vs, before, mid as int, start as int, mid as int));
                                        assert(bounded_at(vs, before, mid as int, mid as int, end as int));
                                        assert(is_walk(vs, w1) && through(w1, mid as int));
                                        assert(is_walk(vs, w2) && through(w2, mid as int));
                                    },
                                }
                            }
                            assert(bounded_at(vs, dist@, mid + 1, start as int, end as int));
                        }
                    } else if end == mid {
                        proof {
                            lemma_end_at_mid(vs, dist@, mid as int, start as int, end as int);
                        }
                    }
                    end = end + 1;
                }
            } else {
                proof {
                    assert forall|b: int| 0 <= b < n && b != start implies #[trigger] bounded_at(vs, dist@, mid + 1, start as int, b) by {
                        lemma_end_at_mid(vs, dist@, mid as int, start as int, b);
                    }
                }
            }
            start = start + 1;
        }
        proof {
            assert forall|a: int, b: int| 0 <= a < n && 0 <= b < n && a != b implies #[trigger] bounded_at(vs, dist@, mid + 1, a, b) by {
                assert(bounded_at(vs, dist@, mid + 1, a, b));
            }
        }
        mid = mid + 1;
    }
    let mut d: usize = 0;
    while d < n
        invariant
            vs == valves_view(valves@),
            n == valves.len(),
            n * n <= usize::MAX,
            d <= n,
            adj_sound(vs, dist@),
            complete_below(vs, dist@, n as int),
            forall|x: int| 0 <= x < d ==> #[trigger] dist@[x * n + x] == Some(0i32),
        decreases n - d,
    {
        let ghost before = dist@;
        proof {
            lemma_cell(n as int, d as int, d as int);
            lemma_set_sound(vs, dist@, d as int, d as int, Some(0i32));
        }
        dist.set(d * n + d, Some(0));
        proof {
            assert forall|x: int| 0 <= x < d + 1 implies #[trigger] dist@[x * n + x] == Some(0i32) by {
                if x < d {
                    lemma_cell(n as int, x, x);
                }
            }
            assert forall|a: int, b: int| 0 <= a < n && 0 <= b < n && a != b implies #[trigger] bounded_at(vs, dist@, n as int, a, b) by {
                lemma_cell(n as int, a, b);
                assert(bounded_at(vs, before, n as int, a, b));
                assert(dist@[a * n + b] == before[a * n + b]);
                lemma_improve(vs, before, dist@, n as int, a, b);
            }
        }
        d = d + 1;
    }
    proof {
        assert forall|a: int, b: int, l: int|
            0 <= a < vs.len() && 0 <= b < vs.len() && a != b && #[trigger] walk_of(vs, a, b, l) && l <= i32::MAX implies match #[trigger] dist@[a
                * vs.len() + b] {
                Some(x) => x <= l,
                None => false,
            } by {
            let w = choose|w: Seq<int>| is_walk(vs, w) && w[0] == a && w.last() == b && w.len() == l + 1;
            assert(through(w, n as int));
            assert(bounded_at(vs, dist@, n as int, a, b));
            assert(is_walk(vs, w) && through(w, n as int));
        }
    }
    let mut ids: Vec<i64> = Vec::new();
    let mut q: usize = 0;
    while q < n
        invariant
            n == valves.len(),
            q <= n,
            ids@ == valves@.map_values(|v: Valve| v.id).take(q as int),
        decreases n - q,
    {
        ids.push(valves[q].id);
        assert(ids@ =~= valves@.map_values(|v: Valve| v.id).take(q + 1));
        q = q + 1;
    }
    assert(ids@ =~= valves@.map_values(|v: Valve| v.id));
    Adjacency { ids, dist }
}

#[verifier::external_type_specification]
#[verifier::external_body]
#[verifier::reject_recursive_types(I)]
#[verifier::reject_recursive_types(P)]
#[verifier::reject_recursive_types(H)]
pub struct ExPriorityQueue<I, P, H>(priority_queue::PriorityQueue<I, P, H>);

/// The items of a queue, each with its priority.
pub uninterp spec fn queue_items(q: PriorityQueue<usize, i32>) -> Map<usize, i32>;

/// An empty queue.
///
/// Calls `PriorityQueue::new`, which makes a queue with no items; the
/// contract says that it holds no item.
#[verifier::external_body]
fn queue_new() -> (r: PriorityQueue<usize, i32>)
    ensures
        queue_items(r).dom() == Set::<usize>::empty(),
{
    PriorityQueue::new()
}

/// Adds an item with a priority.
///
/// Calls `PriorityQueue::push`; its source inserts the item with the
/// priority, or, when an equal item is there, gives it the new priority and
/// returns the old one.
#[verifier::external_body]
fn queue_push(q: &mut PriorityQueue<usize, i32>, item: usize, priority: i32) -> (r: Option<i32>)
    ensures
        queue_items(*final(q)) == queue_items(*old(q)).insert(item, priority),
        r == (if queue_items(*old(q)).dom().contains(item) { Some(queue_items(*old(q))[item]) } else { None }),
{
    q.push(item, priority)
}

/// Takes out an item of the greatest priority.
///
/// Calls `PriorityQueue::pop`; its source removes an item whose priority is
/// the greatest and returns it with its priority, or returns `None` when
/// the queue is empty. Which of several items of equal priority leaves is
/// not stated.
#[verifier::external_body]
fn queue_pop(q: &mut PriorityQueue<usize, i32>) -> (r: Option<(usize, i32)>)
    ensures
        match r {
            None => queue_items(*old(q)).dom() == Set::<usize>::empty() && queue_items(*final(q)) == queue_items(*old(q)),
            Some((item, p)) => {
                &&& queue_items(*old(q)).dom().contains(item)
                &&& queue_items(*old(q))[item] == p
                &&& forall|k: usize| queue_items(*old(q)).dom().contains(k) ==> queue_items(*old(q))[k] <= p
                &&& queue_items(*final(q)) == queue_items(*old(q)).remove(item)
            },
        },
{
    q.pop()
}

/// The valves visited, in order, from the start.
pub struct Path {
    pub path: Vec<i64>,
}

/// A walk through the valves with its state: the time taken, the flow of
/// the valves opened so far and the pressure released up to that time.
pub struct ScoredPath {
    pub path: Path,
    pub time: i32,
    pub flow: i32,
    pub total: i32,
}

/// A scored path as its valves, time, flow and total.
pub open spec fn sp_view(p: ScoredPath) -> (Seq<i64>, int, int, int) {
    (p.path.path@, p.time as int, p.flow as int, p.total as int)
}

/// The pressure released by the end of `time`: what was released, plus the
/// flow for the time left.
pub open spec fn score_spec(p: (Seq<i64>, int, int, int), time: int) -> int {
    p.3 + p.2 * (time - p.1)
}

impl ScoredPath {
    /// The pressure released by the end of `time`.
    pub fn score(&self, time: i32) -> (r: i32)
        requires
            i32::MIN <= score_spec(sp_view(*self), time as int) <= i32::MAX,
            i32::MIN <= time - self.time <= i32::MAX,
            i32::MIN <= self.flow * (time - self.time) <= i32::MAX,
        ensures
            r == score_spec(sp_view(*self), time as int),
    {
        self.total + (self.flow * (time - self.time))
    }
}

/// The adjacency holds a distance for every pair of valves.
pub open spec fn adj_wf(ids: Seq<i64>, dist: Seq<Option<i32>>) -> bool {
    dist.len() == ids.len() * ids.len()
}

/// Every distance is at least zero and leaves room to add `max_time`.
pub open spec fn adj_bounded(dist: Seq<Option<i32>>, max_time: int) -> bool {
    forall|k: int| 0 <= k < dist.len() ==> (#[trigger] dist[k] matches Some(d) ==> 0 <= d < i32::MAX && d + max_time
        < i32::MAX)
}

impl Adjacency {
    /// The distance from the valve with id `from` to the one with id `to`.
    pub fn get(&self, from: i64, to: i64) -> (r: Option<i32>)
        requires
            adj_wf(self.ids@, self.dist@),
        ensures
            match r {
                Some(d) => dist_of(self.ids@, self.dist@, from, to) == Some(d as int),
                None => dist_of(self.ids@, self.dist@, from, to) is None,
            },
    {
        let n = self.ids.len();
        let mut i: usize = 0;
        while i < n && self.ids[i] != from
            invariant
                n == self.ids.len(),
                i <= n,
                forall|k: int| 0 <= k < i ==> self.ids@[k] != from,
            decreases n - i,
        {
            i = i + 1;
        }
        let mut j: usize = 0;
        while j < n && self.ids[j] != to
            invariant
                n == self.ids.len(),
                j <= n,
                forall|k: int| 0 <= k < j ==> self.ids@[k] != to,
            decreases n - j,
        {
            j = j + 1;
        }
        proof {
            if i < n {
                assert(self.ids@.index_of_first(from) == Some(i as int)) by {
                    self.ids@.index_of_first_ensures(from);
                }
            } else {
                assert(self.ids@.index_of_first(from) is None) by {
                    self.ids@.index_of_first_ensures(from);
                }
            }
            if j < n {
                assert(self.ids@.index_of_first(to) == Some(j as int)) by {
                    self.ids@.index_of_first_ensures(to);
                }
            } else {
                assert(self.ids@.index_of_first(to) is None) by {
                    self.ids@.index_of_first_ensures(to);
                }
            }
        }
        let m = self.dist.len();
        if i < n && j < n {
            proof {
                assert(m == n * n);
                lemma_cell(n as int, i as int, j as int);
                assert(self.dist@.len() == n * n);
                assert(i * n <= i * n + j);
            }
            self.dist[i * n + j]
        } else {
            None
        }
    }
}

/// Where opening `next` after `p` leads, by the puzzle's rules: the
/// valve must release pressure, not be open yet and be reachable, and there
/// must be time left after walking there and opening it.
pub open spec fn extend_spec(
    p: (Seq<i64>, int, int, int),
    next: (int, int, Seq<i64>),
    max_time: int,
    seen: Seq<i64>,
    ids: Seq<i64>,
    dist: Seq<Option<i32>>,
) -> Option<(Seq<i64>, int, int, int)> {
    if next.1 == 0 {
        None
    } else if seen.contains(next.0 as i64) {
        None
    } else {
        match dist_of(ids, dist, p.0.last(), next.0 as i64) {
            None => None,
            Some(d) => {
                let cost = d + 1;
                let new_time = p.1 + cost;
                if new_time >= max_time {
                    None
                } else {
                    Some((p.0.push(next.0 as i64), new_time, p.2 + next.1, p.3 + cost * p.2))
                }
            },
        }
    }
}

/// Walks from the end of `path` to `next` and opens it, when the rules
/// allow.
pub fn extend(path: &ScoredPath, next: &Valve, max_time: i32, seen: &Vec<i64>, adj: &Adjacency) -> (r: Option<ScoredPath>)
    requires
        path.path.path.len() > 0,
        adj_wf(adj.ids@, adj.dist@),
        adj_bounded(adj.dist@, max_time as int),
        0 <= path.time,
        path.time < max_time || path.time == 0,
        0 <= path.flow,
        0 <= path.total,
        path.total + (max_time - path.time) * path.flow <= i32::MAX,
        !seen@.contains(next.id) ==> path.flow + next.rate <= i32::MAX,
    ensures
        match r {
            Some(q) => extend_spec(sp_view(*path), valve_view(*next), max_time as int, seen@, adj.ids@, adj.dist@)
                == Some(sp_view(q)),
            None => extend_spec(sp_view(*path), valve_view(*next), max_time as int, seen@, adj.ids@, adj.dist@) is None,
        },
{
    if next.rate == 0 {
        return None;
    }
    let mut k: usize = 0;
    while k < seen.len()
        invariant
            k <= seen.len(),
            forall|j: int| 0 <= j < k ==> seen@[j] != next.id,
        decreases seen.len() - k,
    {
        if seen[k] == next.id {
            assert(seen@.contains(next.id));
            return None;
        }
        k = k + 1;
    }
    assert(!seen@.contains(next.id));
    let last = path.path.path.len() - 1;
    let current = path.path.path[last];
    match adj.get(current, next.id) {
        None => None,
        Some(dist) => {
            proof {
                let i = adj.ids@.index_of_first(current)->0;
                let j = adj.ids@.index_of_first(next.id)->0;
                adj.ids@.index_of_first_ensures(current);
                adj.ids@.index_of_first_ensures(next.id);
                lemma_cell(adj.ids@.len() as int, i, j);
                assert(adj.dist@[i * adj.ids@.len() + j] == Some(dist));
            }
            let cost = dist + 1;
            let new_time = path.time + cost;
            if new_time >= max_time {
                None
            } else {
                assert(cost * path.flow <= (max_time - path.time) * path.flow) by (nonlinear_arith)
                    requires
                        0 <= path.flow,
                        cost <= max_time - path.time,
                ;
                let new_total = path.total + (cost * path.flow);
                let new_flow = path.flow + next.rate;
                let mut new_path = Path { path: path.path.path.clone() };
                new_path.path.push(next.id);
                Some(ScoredPath { path: new_path, time: new_time, flow: new_flow, total: new_total })
            }
        },
    }
}

/// The id of the valve every walk starts from: `AA` read in base 36.
pub open spec fn start_id() -> i64 {
    370
}

/// The state at the start: at `AA`, at time zero, nothing open.
pub open spec fn start_state() -> (Seq<i64>, int, int, int) {
    (seq![start_id()], 0, 0, 0)
}

/// Where opening the valves of `plan`, given by their positions in `vs`,
/// one after another from the start leads, with the ids opened; `None` when
/// the rules forbid a step.
pub open spec fn run1(
    vs: Seq<(int, int, Seq<i64>)>,
    ids: Seq<i64>,
    dist: Seq<Option<i32>>,
    max_time: int,
    plan: Seq<int>,
) -> Option<((Seq<i64>, int, int, int), Seq<i64>)>
    decreases plan.len(),
{
    if plan.len() == 0 {
        Some((start_state(), Seq::empty()))
    } else {
        match run1(vs, ids, dist, max_time, plan.drop_last()) {
            None => None,
            Some((p, seen)) => {
                let j = plan.last();
                if 0 <= j < vs.len() {
                    match extend_spec(p, vs[j], max_time, seen, ids, dist) {
                        None => None,
                        Some(q) => Some((q, seen.push(vs[j].0 as i64))),
                    }
                } else {
                    None
                }
            },
        }
    }
}

/// The sum of the rates.
pub open spec fn rate_sum(vs: Seq<(int, int, Seq<i64>)>) -> int
    decreases vs.len(),
{
    if vs.len() == 0 {
        0
    } else {
        rate_sum(vs.drop_last()) + vs.last().1
    }
}

/// The sum of the rates of the valves whose ids are in `seen`.
pub open spec fn opened(vs: Seq<(int, int, Seq<i64>)>, seen: Seq<i64>) -> int
    decreases vs.len(),
{
    if vs.len() == 0 {
        0
    } else {
        opened(vs.drop_last(), seen) + if seen.contains(vs.last().0 as i64) { vs.last().1 } else { 0 }
    }
}

/// Every rate is at least zero.
pub open spec fn rates_nonneg(vs: Seq<(int, int, Seq<i64>)>) -> bool {
    forall|k: int| 0 <= k < vs.len() ==> 0 <= #[trigger] vs[k].1
}

proof fn lemma_rate_sum(vs: Seq<(int, int, Seq<i64>)>)
    requires
        rates_nonneg(vs),
    ensures
        0 <= rate_sum(vs),
        forall|k: int| 0 <= k < vs.len() ==> #[trigger] vs[k].1 <= rate_sum(vs),
    decreases vs.len(),
{
    if vs.len() > 0 {
        let p = vs.drop_last();
        assert forall|k: int| 0 <= k < p.len() implies p[k] == vs[k] by {}
        lemma_rate_sum(p);
    }
}

proof fn lemma_opened_bounds(vs: Seq<(int, int, Seq<i64>)>, seen: Seq<i64>)
    requires
        rates_nonneg(vs),
    ensures
        0 <= opened(vs, seen) <= rate_sum(vs),
    decreases vs.len(),
{
    if vs.len() > 0 {
        let p = vs.drop_last();
        assert forall|k: int| 0 <= k < p.len() implies p[k] == vs[k] by {}
        lemma_opened_bounds(p, seen);
    }
}

proof fn lemma_opened_push(vs: Seq<(int, int, Seq<i64>)>, seen: Seq<i64>, x: i64)
    requires
        rates_nonneg(vs),
        !seen.contains(x),
    ensures
        opened(vs, seen) <= opened(vs, seen.push(x)),
        forall|k: int| 0 <= k < vs.len() && #[trigger] vs[k].0 as i64 == x ==> opened(vs, seen) + vs[k].1 <= opened(
            vs,
            seen.push(x),
        ),
    decreases vs.len(),
{
    if vs.len() > 0 {
        let p = vs.drop_last();
        assert forall|k: int| 0 <= k < p.len() implies p[k] == vs[k] by {}
        lemma_opened_push(p, seen, x);
        let y = vs.last().0 as i64;
        let s2 = seen.push(x);
        if seen.contains(y) {
            let i = choose|i: int| 0 <= i < seen.len() && seen[i] == y;
            assert(s2[i] == y);
        }
        if y == x {
            assert(s2[seen.len() as int] == x);
        }
        if s2.contains(y) && y != x {
            let i = choose|i: int| 0 <= i < s2.len() && s2[i] == y;
            assert(seen[i] == y);
        }
    }
}

/// Every rate is at least zero, and the flow of all valves together fits
/// in `i32`, as does the pressure it releases in `max_time` minutes.
pub open spec fn valves_fit(vs: Seq<(int, int, Seq<i64>)>, max_time: int) -> bool {
    &&& rates_nonneg(vs)
    &&& rate_sum(vs) <= i32::MAX
    &&& max_time * rate_sum(vs) <= i32::MAX
}

/// A state's numbers are those that a walk can reach: time within
/// `max_time` (or the start), flow at least zero and none at the start, and
/// no more released than the flow for all the time so far.
pub open spec fn state_ok(p: (Seq<i64>, int, int, int), max_time: int) -> bool {
    &&& p.0.len() >= 1
    &&& 0 <= p.1
    &&& (p.1 < max_time || p.1 == 0)
    &&& 0 <= p.2
    &&& 0 <= p.3 <= p.1 * p.2
    &&& (p.1 == 0 ==> p.2 == 0)
}

proof fn lemma_state_room(p: (Seq<i64>, int, int, int), max_time: int, rate: int)
    requires
        state_ok(p, max_time),
        i32::MIN <= max_time,
        p.2 <= rate <= i32::MAX,
        max_time * rate <= i32::MAX,
    ensures
        p.3 + (max_time - p.1) * p.2 <= i32::MAX,
        0 <= score_spec(p, max_time) <= i32::MAX,
        score_spec(p, max_time) <= (if max_time > 0 { max_time * p.2 } else { 0 }),
        0 <= p.2 * (max_time - p.1) <= i32::MAX,
        i32::MIN <= max_time - p.1,
{
    if p.1 == 0 {
        assert(p.3 == 0);
        assert(p.2 * (max_time - p.1) == 0 && (max_time - p.1) * p.2 == 0) by (nonlinear_arith)
            requires
                p.2 == 0,
        ;
    } else {
        assert(p.3 + (max_time - p.1) * p.2 <= max_time * p.2 && max_time * p.2 <= max_time * rate && 0 <= p.2 * (
        max_time - p.1) && p.2 * (max_time - p.1) <= max_time * p.2 && p.2 * (max_time - p.1) == (max_time - p.1)
            * p.2) by (nonlinear_arith)
            requires
                0 < p.1 < max_time,
                0 <= p.2 <= rate,
                0 <= p.3 <= p.1 * p.2,
        ;
    }
}

proof fn lemma_pair_room(h: (Seq<i64>, int, int, int), e: (Seq<i64>, int, int, int), max_time: int, rate: int)
    requires
        state_ok(h, max_time),
        state_ok(e, max_time),
        h.2 + e.2 <= rate <= i32::MAX,
        i32::MIN <= max_time,
        max_time * rate <= i32::MAX,
    ensures
        0 <= score_spec(h, max_time) + score_spec(e, max_time) <= i32::MAX,
{
    lemma_state_room(h, max_time, rate);
    lemma_state_room(e, max_time, rate);
    if max_time > 0 {
        assert(max_time * h.2 + max_time * e.2 <= max_time * rate) by (nonlinear_arith)
            requires
                max_time > 0,
                0 <= h.2,
                0 <= e.2,
                h.2 + e.2 <= rate,
        ;
    }
}

/// The flow of a state that a plan reaches is at most what the valves it
/// opened release together.
proof fn lemma_run1_flow(vs: Seq<(int, int, Seq<i64>)>, ids: Seq<i64>, dist: Seq<Option<i32>>, m: int, plan: Seq<int>)
    requires
        rates_nonneg(vs),
    ensures
        run1(vs, ids, dist, m, plan) matches Some((p, seen)) ==> 0 <= p.2 <= opened(vs, seen),
    decreases plan.len(),
{
    lemma_opened_bounds(vs, Seq::<i64>::empty());
    if plan.len() > 0 {
        lemma_run1_flow(vs, ids, dist, m, plan.drop_last());
        if let Some((p, seen)) = run1(vs, ids, dist, m, plan.drop_last()) {
            let j = plan.last();
            if 0 <= j < vs.len() {
                if extend_spec(p, vs[j], m, seen, ids, dist) is Some {
                    let x = vs[j].0 as i64;
                    let q = extend_spec(p, vs[j], m, seen, ids, dist)->0;
                    lemma_opened_push(vs, seen, x);
                    assert(opened(vs, seen) + vs[j].1 <= opened(vs, seen.push(x)));
                }
            }
        }
    }
}

/// The same for the two walkers together.
proof fn lemma_run2_flow(
    vs: Seq<(int, int, Seq<i64>)>,
    ids: Seq<i64>,
    dist: Seq<Option<i32>>,
    m: int,
    plan: Seq<(bool, int)>,
)
    requires
        rates_nonneg(vs),
    ensures
        run2(vs, ids, dist, m, plan) matches Some((h, e, seen)) ==> 0 <= h.2 && 0 <= e.2 && h.2 + e.2 <= opened(
            vs,
            seen,
        ),
    decreases plan.len(),
{
    lemma_opened_bounds(vs, Seq::<i64>::empty());
    if plan.len() > 0 {
        lemma_run2_flow(vs, ids, dist, m, plan.drop_last());
        if let Some((h, e, seen)) = run2(vs, ids, dist, m, plan.drop_last()) {
            let (human, j) = plan.last();
            if 0 <= j < vs.len() {
                if (human && extend_spec(h, vs[j], m, seen, ids, dist) is Some) || (!human && extend_spec(
                    e,
                    vs[j],
                    m,
                    seen,
                    ids,
                    dist,
                ) is Some) {
                    let x = vs[j].0 as i64;
                    lemma_opened_push(vs, seen, x);
                    assert(opened(vs, seen) + vs[j].1 <= opened(vs, seen.push(x)));
                }
            }
        }
    }
}

proof fn lemma_extend_ok(
    p: (Seq<i64>, int, int, int),
    next: (int, int, Seq<i64>),
    max_time: int,
    seen: Seq<i64>,
    ids: Seq<i64>,
    dist: Seq<Option<i32>>,
)
    requires
        state_ok(p, max_time),
        0 <= next.1,
        adj_bounded(dist, max_time),
        extend_spec(p, next, max_time, seen, ids, dist) is Some,
        dist_of(ids, dist, p.0.last(), next.0 as i64) matches Some(d) ==> 0 <= d,
    ensures
        state_ok(extend_spec(p, next, max_time, seen, ids, dist)->0, max_time),
{
    let d = dist_of(ids, dist, p.0.last(), next.0 as i64)->0;
    let c = d + 1;
    let t = p.1;
    let q = extend_spec(p, next, max_time, seen, ids, dist)->0;
    assert(q.1 == t + c && q.2 == p.2 + next.1 && q.3 == p.3 + c * p.2);
    assert(0 <= q.3 <= q.1 * q.2) by (nonlinear_arith)
        requires
            0 <= t,
            1 <= c,
            0 <= p.2,
            0 <= p.3 <= t * p.2,
            0 <= next.1,
            q.1 == t + c,
            q.2 == p.2 + next.1,
            q.3 == p.3 + c * p.2,
    ;
}

/// The weight of arena entry `k`: `b` to the power of the moves its plan
/// may still take before reaching `d` moves.
pub open spec fn weight<T>(plans: Seq<Seq<T>>, b: int, d: int, k: usize) -> int {
    if (k as int) < plans.len() && plans[k as int].len() <= d {
        pow(b, (d - plans[k as int].len()) as nat)
    } else {
        0
    }
}

pub open spec fn add_weight<T>(plans: Seq<Seq<T>>, b: int, d: int) -> spec_fn(int, usize) -> int {
    |acc: int, k: usize| acc + weight(plans, b, d, k)
}

/// The total weight of the entries waiting in a queue.
pub open spec fn queue_weight<T>(s: Set<usize>, plans: Seq<Seq<T>>, b: int, d: int) -> int {
    s.fold(0, add_weight(plans, b, d))
}

proof fn lemma_add_weight_commutes<T>(plans: Seq<Seq<T>>, b: int, d: int)
    ensures
        vstd::set::fold::is_fun_commutative(add_weight(plans, b, d)),
{
    let f = add_weight(plans, b, d);
    assert forall|a1: usize, a2: usize, x: int| #[trigger] f(f(x, a2), a1) == f(f(x, a1), a2) by {}
}

proof fn lemma_weight_insert<T>(s: Set<usize>, plans: Seq<Seq<T>>, b: int, d: int, k: usize)
    requires
        s.finite(),
        !s.contains(k),
    ensures
        queue_weight(s.insert(k), plans, b, d) == queue_weight(s, plans, b, d) + weight(plans, b, d, k),
{
    lemma_add_weight_commutes(plans, b, d);
    vstd::set::fold::lemma_fold_insert(s, 0, add_weight(plans, b, d), k);
}

proof fn lemma_weight_remove<T>(s: Set<usize>, plans: Seq<Seq<T>>, b: int, d: int, k: usize)
    requires
        s.finite(),
        s.contains(k),
    ensures
        queue_weight(s.remove(k), plans, b, d) == queue_weight(s, plans, b, d) - weight(plans, b, d, k),
{
    lemma_weight_insert(s.remove(k), plans, b, d, k);
    assert(s.remove(k).insert(k) =~= s);
}

proof fn lemma_weight_agree<T>(s: Set<usize>, p1: Seq<Seq<T>>, p2: Seq<Seq<T>>, b: int, d: int)
    requires
        s.finite(),
        forall|k: usize| s.contains(k) ==> weight(p1, b, d, k) == weight(p2, b, d, k),
    ensures
        queue_weight(s, p1, b, d) == queue_weight(s, p2, b, d),
    decreases s.len(),
{
    if s.len() == 0 {
        s.lemma_len0_is_empty();
        vstd::set::fold::lemma_fold_empty(0, add_weight(p1, b, d));
        vstd::set::fold::lemma_fold_empty(0, add_weight(p2, b, d));
    } else {
        if s =~= Set::<usize>::empty() {
            assert(s.len() == 0);
        }
        let a = s.choose();
        lemma_weight_agree(s.remove(a), p1, p2, b, d);
        lemma_weight_remove(s, p1, b, d, a);
        lemma_weight_remove(s, p2, b, d, a);
    }
}

proof fn lemma_weight_nonneg<T>(s: Set<usize>, plans: Seq<Seq<T>>, b: int, d: int)
    requires
        s.finite(),
        b >= 1,
    ensures
        queue_weight(s, plans, b, d) >= 0,
    decreases s.len(),
{
    if s.len() == 0 {
        s.lemma_len0_is_empty();
        vstd::set::fold::lemma_fold_empty(0, add_weight(plans, b, d));
    } else {
        if s =~= Set::<usize>::empty() {
            assert(s.len() == 0);
        }
        let a = s.choose();
        lemma_weight_nonneg(s.remove(a), plans, b, d);
        lemma_weight_remove(s, plans, b, d, a);
        if (a as int) < plans.len() && plans[a as int].len() <= d {
            lemma_pow_positive(b, (d - plans[a as int].len()) as nat);
        }
    }
}

/// Pushing a plan onto the arena keeps the weights of the older entries.
proof fn lemma_weight_push<T>(s: Set<usize>, plans: Seq<Seq<T>>, b: int, d: int, plan: Seq<T>)
    requires
        s.finite(),
        forall|k: usize| s.contains(k) ==> (k as int) < plans.len(),
    ensures
        queue_weight(s, plans.push(plan), b, d) == queue_weight(s, plans, b, d),
{
    assert forall|k: usize| s.contains(k) implies weight(plans.push(plan), b, d, k) == weight(plans, b, d, k) by {
        assert(plans.push(plan)[k as int] == plans[k as int]);
    }
    lemma_weight_agree(s, plans.push(plan), plans, b, d);
}

/// A plan that runs is no longer than the time its walk takes, which is
/// under the time limit once it has a move.
proof fn lemma_run1_len(vs: Seq<(int, int, Seq<i64>)>, ids: Seq<i64>, dist: Seq<Option<i32>>, m: int, plan: Seq<int>)
    requires
        adj_wf(ids, dist),
        adj_bounded(dist, m),
        run1(vs, ids, dist, m, plan) is Some,
    ensures
        run1(vs, ids, dist, m, plan) matches Some((p, _)) && plan.len() <= p.1 && (plan.len() > 0 ==> p.1 < m),
    decreases plan.len(),
{
    if plan.len() > 0 {
        lemma_run1_len(vs, ids, dist, m, plan.drop_last());
        let (p, _) = run1(vs, ids, dist, m, plan.drop_last())->0;
        let j = plan.last();
        lemma_dist_nonneg(ids, dist, m, p.0.last(), vs[j].0 as i64);
    } else {
        assert(start_state().1 == 0);
    }
}

/// A two-walker plan that runs is no longer than the two walks' times
/// together, each of which is zero or under the time limit.
proof fn lemma_run2_len(vs: Seq<(int, int, Seq<i64>)>, ids: Seq<i64>, dist: Seq<Option<i32>>, m: int, plan: Seq<(bool, int)>)
    requires
        adj_wf(ids, dist),
        adj_bounded(dist, m),
        run2(vs, ids, dist, m, plan) is Some,
    ensures
        run2(vs, ids, dist, m, plan) matches Some((h, e, _)) && plan.len() <= h.1 + e.1 && 0 <= h.1 && 0 <= e.1 && (h.1
            < m || h.1 == 0) && (e.1 < m || e.1 == 0),
    decreases plan.len(),
{
    if plan.len() > 0 {
        lemma_run2_len(vs, ids, dist, m, plan.drop_last());
        let (h, e, _) = run2(vs, ids, dist, m, plan.drop_last())->0;
        let (human, j) = plan.last();
        lemma_dist_nonneg(ids, dist, m, h.0.last(), vs[j].0 as i64);
        lemma_dist_nonneg(ids, dist, m, e.0.last(), vs[j].0 as i64);
    } else {
        assert(start_state().1 == 0);
    }
}

struct Candidate {
    path: ScoredPath,
    seen: Vec<i64>,
}

/// The id of `AA`, read in base 36.
fn start_valve() -> (r: Option<i64>)
    ensures
        r == Some(start_id()),
{
    let name = "AA";
    proof {
        reveal_strlit("AA");
        reveal_with_fuel(value36, 3);
        assert(name@.len() == 2 && name@[0] == 'A' && name@[1] == 'A');
        assert(all_digits36(name@));
        assert(value36(name@.drop_last()) == 10) by {
            assert(name@.drop_last().drop_last().len() == 0);
        }
        assert(base36_value(name@) == Some(370int));
    }
    parse_base36(name)
}

/// The key of valve `pos` at minute `t` in a table of best scores.
pub open spec fn slot(pos: i64, t: int) -> i128 {
    (pos * 0x1_0000_0000 + t) as i128
}

proof fn lemma_slot(p1: i64, t1: int, p2: i64, t2: int)
    requires
        0 <= t1 < 0x1_0000_0000,
        0 <= t2 < 0x1_0000_0000,
    ensures
        i128::MIN <= p1 * 0x1_0000_0000 + t1 <= i128::MAX,
        slot(p1, t1) == slot(p2, t2) ==> p1 == p2 && t1 == t2,
{
    assert(i128::MIN <= p1 * 0x1_0000_0000 + t1 <= i128::MAX) by (nonlinear_arith)
        requires
            i64::MIN <= p1 <= i64::MAX,
            0 <= t1 < 0x1_0000_0000,
    ;
    assert(i128::MIN <= p2 * 0x1_0000_0000 + t2 <= i128::MAX) by (nonlinear_arith)
        requires
            i64::MIN <= p2 <= i64::MAX,
            0 <= t2 < 0x1_0000_0000,
    ;
    if p1 < p2 {
        assert(p1 * 0x1_0000_0000 + t1 < p2 * 0x1_0000_0000 + t2) by (nonlinear_arith)
            requires
                p1 < p2,
                0 <= t1 < 0x1_0000_0000,
                0 <= t2,
        ;
    } else if p2 < p1 {
        assert(p2 * 0x1_0000_0000 + t2 < p1 * 0x1_0000_0000 + t1) by (nonlinear_arith)
            requires
                p2 < p1,
                0 <= t2 < 0x1_0000_0000,
                0 <= t1,
        ;
    }
}

/// The key of valve `pos` at minute `t`, computed.
fn slot_of(pos: i64, t: i32) -> (r: i128)
    requires
        t >= 0,
    ensures
        r == slot(pos, t as int),
{
    proof {
        lemma_slot(pos, t as int, pos, t as int);
    }
    (pos as i128) * 0x1_0000_0000 + (t as i128)
}

/// Searches for the most pressure one walker can release by `max_time`,
/// opening the given valves: the most promising walks first, dropping a
/// walk when another that reached the same valve by the same time had
/// released more.
///
/// The pressure found is that of a walk that the rules allow, and at least
/// that of every walk that opens a single valve; when no two valves share an
/// id, at least that of every walk that opens two, whatever order the queue
/// takes among equal scores.
pub fn bfs_search1(valves: &Vec<Valve>, adj: &Adjacency, max_time: i32) -> (r: i32)
    requires
        valves_fit(valves_view(valves@), max_time as int),
        adj_wf(adj.ids@, adj.dist@),
        adj_bounded(adj.dist@, max_time as int),
    ensures
        r >= 0,
        ({
            let best = r;
            &&& exists|plan: Seq<int>| #[trigger] run1(valves_view(valves@), adj.ids@, adj.dist@, max_time as int, plan)
                matches Some((p, _)) && best == score_spec(p, max_time as int)
            &&& forall|j: int| 0 <= j < valves.len() ==> (#[trigger] run1(valves_view(valves@), adj.ids@, adj.dist@, max_time as int, seq![j])
                matches Some((p, _)) ==> score_spec(p, max_time as int) <= best)
            &&& distinct_ids(valves_view(valves@)) ==> forall|j: int, k: int| (#[trigger] run1(
                valves_view(valves@),
                adj.ids@,
                adj.dist@,
                max_time as int,
                seq![j].push(k),
            )) matches Some((p, _)) ==> score_spec(p, max_time as int) <= best
        }),
{
    let ghost wb: int = (valves@.len() + 1) as int;
    let ghost wd: int = if max_time > 0 { max_time as int } else { 0 };
    let ghost vs = valves_view(valves@);
    let ghost ids = adj.ids@;
    let ghost dist = adj.dist@;
    let ghost m = max_time as int;
    let ghost rate = rate_sum(vs);
    proof {
        lemma_rate_sum(vs);
    }
    let aa = match start_valve() {
        Some(id) => id,
        None => {
            return 0;
        },
    };
    let mut arena: Vec<Candidate> = Vec::new();
    let mut start_path: Vec<i64> = Vec::new();
    start_path.push(aa);
    arena.push(Candidate { path: ScoredPath { path: Path { path: start_path }, time: 0, flow: 0, total: 0 }, seen: Vec::new() });
    let ghost mut plans: Seq<Seq<int>> = seq![Seq::<int>::empty()];
    proof {
        assert(sp_view(arena@[0].path) =~= start_state());
        assert(arena@[0].seen@ =~= Seq::<i64>::empty());
    }
    let mut queue = queue_new();
    let ghost q0 = queue_items(queue).dom();
    queue_push(&mut queue, 0, 0);
    proof {
        vstd::set::fold::lemma_fold_empty(0, add_weight(plans, wb, wd));
        lemma_weight_insert(q0, plans, wb, wd, 0);
        assert(queue_items(queue).dom() == q0.insert(0));
        assert(queue_weight(queue_items(queue).dom(), plans, wb, wd) == pow(wb, wd as nat));
    }
    let mut best: i32 = 0;
    let ghost mut best_plan: Seq<int> = Seq::empty();
    proof {
        assert(run1(vs, ids, dist, m, best_plan) == Some((start_state(), Seq::<i64>::empty())));
        assert(score_spec(start_state(), m) == 0) by (nonlinear_arith)
            requires
                start_state().2 == 0,
                start_state().3 == 0,
        ;
    }
    let mut best_scores: HashMap<i128, i32> = HashMap::new();
    proof {
        assert(best_scores@.dom() =~= Set::<i128>::empty());
        assert(queue_items(queue).dom() =~= set![0usize]);
    }
    let mut done = false;
    let ghost mut root_done = false;
    while !done
        invariant
            wb == valves@.len() + 1,
            wd == (if max_time > 0 { max_time as int } else { 0 }),
            queue_items(queue).dom().finite(),
            forall|c: int| 0 <= c < plans.len() ==> (#[trigger] plans[c]).len() <= wd,
            best >= 0,
            vs == valves_view(valves@),
            ids == adj.ids@,
            dist == adj.dist@,
            m == max_time as int,
            rate == rate_sum(vs),
            0 <= rate,
            m * rate <= i32::MAX,
            rate <= i32::MAX,
            forall|k: int| 0 <= k < vs.len() ==> #[trigger] vs[k].1 <= rate,
            valves_fit(vs, m),
            adj_wf(ids, dist),
            adj_bounded(dist, m),
            arena@.len() == plans.len(),
            arena@.len() >= 1,
            plans[0] == Seq::<int>::empty(),
            forall|c: int| 0 <= c < arena@.len() ==> #[trigger] run1(vs, ids, dist, m, plans[c]) == Some(
                (sp_view(arena@[c].path), arena@[c].seen@),
            ) && state_ok(sp_view(arena@[c].path), m),
            forall|k: usize| queue_items(queue).dom().contains(k) ==> k < arena@.len(),
            run1(vs, ids, dist, m, best_plan) matches Some((p, _)) && best == score_spec(p, m),
            !root_done ==> queue_items(queue).dom().contains(0),
            root_done ==> forall|j: int| 0 <= j < vs.len() ==> (#[trigger] run1(vs, ids, dist, m, seq![j]) matches Some((p, _))
                ==> score_spec(p, m) <= best),
            done ==> root_done,
            done ==> queue_items(queue).dom() == Set::<usize>::empty(),
            !root_done ==> queue_items(queue).dom() == set![0usize] && arena@.len() == 1 && best_scores@.dom() == Set::<
                i128,
            >::empty(),
            root_done ==> !queue_items(queue).dom().contains(0),
            root_done && distinct_ids(vs) ==> forall|j: int| 0 <= j < vs.len() && (#[trigger] run1(vs, ids, dist, m, seq![j]))
                is Some ==> exists|c: int| 0 <= c < plans.len() && plans[c] == seq![j],
            forall|c: int| 0 <= c < arena@.len() && !queue_items(queue).dom().contains(c as usize) && (#[trigger] plans[c]).len()
                == 1 ==> forall|k: int| (#[trigger] run1(vs, ids, dist, m, plans[c].push(k))) matches Some((p, _))
                ==> score_spec(p, m) <= best,
        decreases queue_weight(queue_items(queue).dom(), plans, wb, wd) + if done { 0int } else { 1int },
    {
        let ghost old_dom = queue_items(queue).dom();
        let ghost measure = queue_weight(old_dom, plans, wb, wd);
        match queue_pop(&mut queue) {
            None => {
                done = true;
            },
            Some((ci, _)) => {
                let _arena_len = arena.len();
                let ghost cplan = plans[ci as int];
                let ghost wp = weight(plans, wb, wd, ci);
                let ghost wc = if cplan.len() < wd { pow(wb, (wd - cplan.len() - 1) as nat) } else { 0 };
                let ghost mut kids: int = 0;
                proof {
                    lemma_weight_remove(old_dom, plans, wb, wd, ci);
                    assert(queue_items(queue).dom() == old_dom.remove(ci));
                    assert(wp == pow(wb, (wd - cplan.len()) as nat));
                    if !root_done {
                        assert(old_dom.contains(ci));
                        assert(ci == 0);
                    }
                    assert forall|c: int| 0 <= c < arena@.len() && c != ci && !queue_items(queue).dom().contains(c as usize)
                        && (#[trigger] plans[c]).len() == 1 implies forall|k: int| (#[trigger] run1(vs, ids, dist, m, plans[c].push(k)))
                        matches Some((p, _)) ==> score_spec(p, m) <= best by {
                        assert((c as usize) != ci);
                        assert(queue_items(queue).dom() == old_dom.remove(ci));
                        assert(!old_dom.remove(ci).contains(c as usize));
                        assert(!old_dom.contains(c as usize));
                    }
                    lemma_pow_positive(wb, (wd - cplan.len()) as nat);
                }
                let mut j: usize = 0;
                while j < valves.len()
                    invariant
                        wb == valves@.len() + 1,
                        wd == (if max_time > 0 { max_time as int } else { 0 }),
                                    queue_items(queue).dom().finite(),
                        forall|c: int| 0 <= c < plans.len() ==> (#[trigger] plans[c]).len() <= wd,
                        best >= 0,
                        0 <= kids <= j,
                        kids > 0 ==> cplan.len() < wd,
                        wp == pow(wb, (wd - cplan.len()) as nat),
                        wc == (if cplan.len() < wd { pow(wb, (wd - cplan.len() - 1) as nat) } else { 0 }),
                        wp >= 1,
                        queue_weight(queue_items(queue).dom(), plans, wb, wd) + wp <= measure + kids * wc,
                        vs == valves_view(valves@),
                        ids == adj.ids@,
                        dist == adj.dist@,
                        m == max_time as int,
                        rate == rate_sum(vs),
                        0 <= rate,
                        m * rate <= i32::MAX,
            rate <= i32::MAX,
                        forall|k: int| 0 <= k < vs.len() ==> #[trigger] vs[k].1 <= rate,
                        valves_fit(vs, m),
                        adj_wf(ids, dist),
                        adj_bounded(dist, m),
                        j <= valves.len(),
                        ci < arena@.len(),
                        cplan == plans[ci as int],
                        arena@.len() == plans.len(),
                        arena@.len() >= 1,
                        plans[0] == Seq::<int>::empty(),
                        forall|c: int| 0 <= c < arena@.len() ==> #[trigger] run1(vs, ids, dist, m, plans[c]) == Some(
                            (sp_view(arena@[c].path), arena@[c].seen@),
                        ) && state_ok(sp_view(arena@[c].path), m),
                        forall|k: usize| queue_items(queue).dom().contains(k) ==> k < arena@.len(),
                        run1(vs, ids, dist, m, best_plan) matches Some((p, _)) && best == score_spec(p, m),
                        !root_done ==> (ci == 0 || queue_items(queue).dom().contains(0)),
                        ci == 0 ==> forall|j2: int| 0 <= j2 < j ==> (#[trigger] run1(vs, ids, dist, m, seq![j2]) matches Some((p, _))
                            ==> score_spec(p, m) <= best),
                        root_done ==> forall|j2: int| 0 <= j2 < vs.len() ==> (#[trigger] run1(vs, ids, dist, m, seq![j2]) matches Some((p, _))
                            ==> score_spec(p, m) <= best),
                        ci == 0 ==> !root_done,
                        root_done && distinct_ids(vs) ==> forall|j2: int| 0 <= j2 < vs.len() && (#[trigger] run1(vs, ids, dist, m, seq![j2]))
                            is Some ==> exists|c: int| 0 <= c < plans.len() && plans[c] == seq![j2],
                        ci == 0 ==> cplan == Seq::<int>::empty(),
                        !queue_items(queue).dom().contains(ci),
                        root_done ==> !queue_items(queue).dom().contains(0),
                        ci == 0 ==> forall|key: i128| #[trigger] best_scores@.dom().contains(key) ==> exists|j2: int, t: int|
                            0 <= j2 < j && 0 <= t < 0x1_0000_0000 && key == #[trigger] slot(vs[j2].0 as i64, t),
                        ci == 0 && distinct_ids(vs) ==> forall|j2: int| 0 <= j2 < j && (#[trigger] run1(vs, ids, dist, m, seq![j2]))
                            is Some ==> exists|c: int| 0 <= c < plans.len() && plans[c] == seq![j2],
                        forall|c: int| 0 <= c < arena@.len() && c != ci && !queue_items(queue).dom().contains(c as usize)
                            && (#[trigger] plans[c]).len() == 1 ==> forall|k: int| (#[trigger] run1(vs, ids, dist, m, plans[c].push(k)))
                            matches Some((p, _)) ==> score_spec(p, m) <= best,
                        cplan.len() == 1 ==> forall|k: int| 0 <= k < j ==> ((#[trigger] run1(vs, ids, dist, m, cplan.push(k)))
                            matches Some((p, _)) ==> score_spec(p, m) <= best),
                    decreases valves.len() - j,
                {
                    let ghost here = sp_view(arena@[ci as int].path);
                    let ghost seen = arena@[ci as int].seen@;
                    let ghost nplan = cplan.push(j as int);
                    proof {
                        assert(run1(vs, ids, dist, m, cplan) == Some((here, seen)));
                        assert(nplan.drop_last() =~= cplan);
                        assert(vs[j as int] == valve_view(valves@[j as int]));
                        let x = vs[j as int].0 as i64;
                        lemma_run1_flow(vs, ids, dist, m, cplan);
                        lemma_opened_bounds(vs, seen);
                        lemma_state_room(here, m, rate);
                        if !seen.contains(x) {
                            lemma_opened_push(vs, seen, x);
                            lemma_opened_bounds(vs, seen.push(x));
                        }
                        if ci == 0 {
                            assert(nplan =~= seq![j as int]);
                        }
                        if let Some(d) = dist_of(ids, dist, here.0.last(), vs[j as int].0 as i64) {
                            let a = ids.index_of_first(here.0.last())->0;
                            let b = ids.index_of_first(vs[j as int].0 as i64)->0;
                            ids.index_of_first_ensures(here.0.last());
                            ids.index_of_first_ensures(vs[j as int].0 as i64);
                            lemma_cell(ids.len() as int, a, b);
                            assert(dist[a * ids.len() + b] matches Some(x) && x == d);
                        }
                    }
                    match extend(&arena[ci].path, &valves[j], max_time, &arena[ci].seen, adj) {
                        None => {
                            proof {
                                assert(run1(vs, ids, dist, m, nplan) is None);
                            }
                        },
                        Some(new_path) => {
                            let ghost q = sp_view(new_path);
                            proof {
                                lemma_extend_ok(here, vs[j as int], m, seen, ids, dist);
                                assert(run1(vs, ids, dist, m, nplan) == Some((q, seen.push(vs[j as int].0 as i64))));
                                lemma_run1_flow(vs, ids, dist, m, nplan);
                                lemma_opened_bounds(vs, seen.push(vs[j as int].0 as i64));
                                lemma_state_room(q, m, rate);
                                assert(q.2 * (m - q.1) <= i32::MAX);
                            }
                            let score = new_path.score(max_time);
                            if score > best {
                                best = score;
                                proof {
                                    best_plan = nplan;
                                }
                            }
                            let mut new_seen = arena[ci].seen.clone();
                            new_seen.push(valves[j].id);
                            let pos = valves[j].id;
                            proof {
                                assert(pos == vs[j as int].0 as i64);
                                if ci == 0 && distinct_ids(vs) {
                                    let key = slot(pos, new_path.time as int);
                                    if best_scores@.dom().contains(key) {
                                        let (j2, t) = choose|j2: int, t: int| 0 <= j2 < j && 0 <= t < 0x1_0000_0000 && key
                                            == #[trigger] slot(vs[j2].0 as i64, t);
                                        lemma_slot(pos, new_path.time as int, vs[j2].0 as i64, t);
                                        assert(vs[j2].0 != vs[j as int].0);
                                    }
                                }
                            }
                            let is_best = match best_scores.get(&slot_of(pos, new_path.time)) {
                                Some(b) => score >= *b,
                                None => true,
                            };
                            if is_best {
                                let mut t = new_path.time;
                                while t < max_time
                                    invariant
                                        0 <= t,
                                        pos == vs[j as int].0 as i64,
                                        ci == 0 ==> forall|key: i128| #[trigger] best_scores@.dom().contains(key) ==> exists|
                                            j2: int,
                                            tt: int,
                                        | 0 <= j2 <= j && 0 <= tt < 0x1_0000_0000 && key == #[trigger] slot(vs[j2].0 as i64, tt),
                                    decreases max_time - t,
                                {
                                    let ghost before = best_scores@;
                                    best_scores.insert(slot_of(pos, t), score);
                                    proof {
                                        assert forall|key: i128| #[trigger] best_scores@.dom().contains(key) implies (ci == 0
                                            ==> exists|j2: int, tt: int| 0 <= j2 <= j && 0 <= tt < 0x1_0000_0000 && key == #[trigger] slot(
                                            vs[j2].0 as i64,
                                            tt,
                                        )) by {
                                            if ci == 0 && key != slot(pos, t as int) {
                                                assert(before.dom().contains(key));
                                            } else if ci == 0 {
                                                assert(0 <= j <= j && 0 <= t < 0x1_0000_0000 && key == slot(vs[j as int].0 as i64, t as int));
                                            }
                                        }
                                    }
                                    t = t + 1;
                                }
                                proof {
                                    assert(new_seen@ =~= seen.push(vs[j as int].0 as i64));
                                }
                                let ghost dom_before = queue_items(queue).dom();
                                proof {
                                    lemma_run1_len(vs, ids, dist, m, nplan);
                                    lemma_weight_push(dom_before, plans, wb, wd, nplan);
                                }
                                arena.push(Candidate { path: new_path, seen: new_seen });
                                let ghost old_plans = plans;
                                proof {
                                    plans = plans.push(nplan);
                                    if ci == 0 {
                                        assert(plans[plans.len() - 1] == seq![j as int]);
                                    }
                                    assert forall|j2: int| 0 <= j2 < vs.len() && (#[trigger] run1(vs, ids, dist, m, seq![j2])) is Some
                                        && exists|c: int| 0 <= c < old_plans.len() && old_plans[c] == seq![j2] implies exists|c: int| 0 <= c < plans.len() && plans[c] == seq![j2] by {
                                        let c = choose|c: int| 0 <= c < old_plans.len() && old_plans[c] == seq![j2];
                                        assert(plans[c] == old_plans[c]);
                                    }
                                    assert forall|c: int| 0 <= c < old_plans.len() implies #[trigger] plans[c] == old_plans[c] by {}
                                }
                                queue_push(&mut queue, arena.len() - 1, score);
                                proof {
                                    let k = (arena.len() - 1) as usize;
                                    assert(!dom_before.contains(k));
                                    lemma_weight_insert(dom_before, plans, wb, wd, k);
                                    assert(queue_items(queue).dom() == dom_before.insert(k));
                                    assert(weight(plans, wb, wd, k) == wc);
                                    assert(kids * wc + wc == (kids + 1) * wc) by (nonlinear_arith);
                                    kids = kids + 1;
                                }
                            }
                        },
                    }
                    j = j + 1;
                }
                proof {
                    if ci == 0 {
                        root_done = true;
                    }
                    if kids > 0 {
                        assert(wp == wb * wc) by {
                            let e: nat = (wd - cplan.len()) as nat;
                            assert(e > 0);
                            reveal(pow);
                            assert(pow(wb, e) == wb * pow(wb, (e - 1) as nat));
                            assert((e - 1) as nat == (wd - cplan.len() - 1) as nat);
                        }
                        lemma_pow_positive(wb, (wd - cplan.len() - 1) as nat);
                        assert(kids * wc + 1 <= wb * wc) by (nonlinear_arith)
                            requires
                                kids <= wb - 1,
                                wc >= 1,
                        ;
                    } else {
                        assert(kids * wc == 0) by (nonlinear_arith)
                            requires
                                kids == 0,
                        ;
                    }
                }
            },
        }
        proof {
            lemma_weight_nonneg(queue_items(queue).dom(), plans, wb, wd);
        }
    }
    let _arena_len = arena.len();
    proof {
        if distinct_ids(vs) {
            assert forall|j: int, k: int| true implies ((#[trigger] run1(vs, ids, dist, m, seq![j].push(k))) matches Some((p, _))
                ==> score_spec(p, m) <= best) by {
                let two = seq![j].push(k);
                if run1(vs, ids, dist, m, two) is Some {
                assert(two.drop_last() =~= seq![j]);
                assert(run1(vs, ids, dist, m, seq![j]) is Some);
                assert(seq![j].drop_last() =~= Seq::<int>::empty());
                assert(0 <= j < vs.len());
                let c = choose|c: int| 0 <= c < plans.len() && plans[c] == seq![j];
                assert(plans[c].len() == 1);
                assert(plans[c].push(k) =~= two);
                assert(!queue_items(queue).dom().contains(c as usize));
                }
            }
        }
    }
    best
}

/// How `a` compares with `b` word by word from position `i` on: `-1` when
/// `a` comes first, `1` when it comes after, `0` when they are equal; a
/// prefix comes before what it is a prefix of.
pub open spec fn lex_from(a: Seq<i64>, b: Seq<i64>, i: int) -> int
    decreases a.len() - i,
{
    if i < 0 || i >= a.len() || i >= b.len() {
        if a.len() < b.len() {
            -1
        } else if a.len() > b.len() {
            1
        } else {
            0
        }
    } else if a[i] < b[i] {
        -1
    } else if a[i] > b[i] {
        1
    } else {
        lex_from(a, b, i + 1)
    }
}

proof fn lemma_lex_equal(a: Seq<i64>, b: Seq<i64>, i: int)
    requires
        0 <= i <= a.len(),
        i <= b.len(),
        lex_from(a, b, i) == 0,
        a.take(i) == b.take(i),
    ensures
        a == b,
    decreases a.len() - i,
{
    if i < a.len() && i < b.len() {
        assert(a.take(i + 1) =~= a.take(i).push(a[i]));
        assert(b.take(i + 1) =~= b.take(i).push(b[i]));
        lemma_lex_equal(a, b, i + 1);
    } else {
        assert(a.len() == b.len());
        assert(a =~= a.take(i));
        assert(b =~= b.take(i));
    }
}

/// `-1`, `0` or `1` as `a` comes before, equals or comes after `b`.
fn lex_sign(a: &Vec<i64>, b: &Vec<i64>) -> (r: i8)
    ensures
        r == lex_from(a@, b@, 0),
        r == 0 ==> a@ == b@,
{
    let len = if a.len() < b.len() { a.len() } else { b.len() };
    let mut i: usize = 0;
    while i < len
        invariant
            len <= a.len(),
            len <= b.len(),
            len == a.len() || len == b.len(),
            i <= len,
            lex_from(a@, b@, 0) == lex_from(a@, b@, i as int),
            a@.take(i as int) == b@.take(i as int),
        decreases len - i,
    {
        if a[i] < b[i] {
            return -1;
        } else if a[i] > b[i] {
            return 1;
        }
        assert(a@.take(i + 1) =~= a@.take(i as int).push(a@[i as int]));
        assert(b@.take(i + 1) =~= b@.take(i as int).push(b@[i as int]));
        i = i + 1;
    }
    if a.len() < b.len() {
        -1
    } else if a.len() > b.len() {
        1
    } else {
        proof {
            lemma_lex_equal(a@, b@, i as int);
        }
        0
    }
}

proof fn lemma_lex_self(a: Seq<i64>, i: int)
    requires
        0 <= i,
    ensures
        lex_from(a, a, i) == 0,
    decreases a.len() - i,
{
    if i < a.len() {
        lemma_lex_self(a, i + 1);
    }
}

/// Compares two paths valve by valve; a path comes before the paths it is
/// a prefix of.
pub fn compare(left: &Path, right: &Path) -> (r: std::cmp::Ordering)
    ensures
        (r == std::cmp::Ordering::Less) == (lex_from(left.path@, right.path@, 0) < 0),
        (r == std::cmp::Ordering::Greater) == (lex_from(left.path@, right.path@, 0) > 0),
        (r == std::cmp::Ordering::Equal) == (left.path@ == right.path@),
{
    let sign = lex_sign(&left.path, &right.path);
    proof {
        if left.path@ == right.path@ {
            lemma_lex_self(left.path@, 0);
        }
    }
    if sign < 0 {
        std::cmp::Ordering::Less
    } else if sign > 0 {
        std::cmp::Ordering::Greater
    } else {
        std::cmp::Ordering::Equal
    }
}

/// `left` does not come before `right`.
pub fn path_ge(left: &Path, right: &Path) -> (r: bool)
    ensures
        r == (lex_from(left.path@, right.path@, 0) >= 0),
{
    match compare(left, right) {
        std::cmp::Ordering::Less => false,
        std::cmp::Ordering::Equal => {
            proof {
                assert(lex_from(left.path@, right.path@, 0) == 0);
            }
            true
        },
        std::cmp::Ordering::Greater => true,
    }
}

/// Where the moves of `plan` lead from the start: in each move the walker
/// (`true`) or the elephant (`false`) walks to the valve at the given
/// position in `vs` and opens it; both share the valves opened. `None` when
/// the rules forbid a move.
pub open spec fn run2(
    vs: Seq<(int, int, Seq<i64>)>,
    ids: Seq<i64>,
    dist: Seq<Option<i32>>,
    max_time: int,
    plan: Seq<(bool, int)>,
) -> Option<((Seq<i64>, int, int, int), (Seq<i64>, int, int, int), Seq<i64>)>
    decreases plan.len(),
{
    if plan.len() == 0 {
        Some((start_state(), start_state(), Seq::empty()))
    } else {
        match run2(vs, ids, dist, max_time, plan.drop_last()) {
            None => None,
            Some((h, e, seen)) => {
                let (human, j) = plan.last();
                if 0 <= j < vs.len() {
                    if human {
                        match extend_spec(h, vs[j], max_time, seen, ids, dist) {
                            None => None,
                            Some(q) => Some((q, e, seen.push(vs[j].0 as i64))),
                        }
                    } else {
                        match extend_spec(e, vs[j], max_time, seen, ids, dist) {
                            None => None,
                            Some(q) => Some((h, q, seen.push(vs[j].0 as i64))),
                        }
                    }
                } else {
                    None
                }
            },
        }
    }
}

struct Candidate2 {
    human: ScoredPath,
    elephant: ScoredPath,
    seen: Vec<i64>,
}

fn copy_path(p: &ScoredPath) -> (r: ScoredPath)
    ensures
        sp_view(r) == sp_view(*p),
{
    ScoredPath { path: Path { path: p.path.path.clone() }, time: p.time, flow: p.flow, total: p.total }
}

/// The invariant of a candidate of the search for two: the moves that lead
/// to it, and its numbers within bounds.
pub open spec fn cand2_ok(
    vs: Seq<(int, int, Seq<i64>)>,
    ids: Seq<i64>,
    dist: Seq<Option<i32>>,
    m: int,
    plan: Seq<(bool, int)>,
    h: (Seq<i64>, int, int, int),
    e: (Seq<i64>, int, int, int),
    seen: Seq<i64>,
) -> bool {
    &&& run2(vs, ids, dist, m, plan) == Some((h, e, seen))
    &&& state_ok(h, m)
    &&& state_ok(e, m)
}

/// The same moves with the walker's and the elephant's roles exchanged.
pub open spec fn swap_plan(plan: Seq<(bool, int)>) -> Seq<(bool, int)> {
    plan.map_values(|mv: (bool, int)| (!mv.0, mv.1))
}

/// Exchanging the roles exchanges the two walkers' states and keeps the
/// valves opened.
proof fn lemma_run2_swap(
    vs: Seq<(int, int, Seq<i64>)>,
    ids: Seq<i64>,
    dist: Seq<Option<i32>>,
    m: int,
    plan: Seq<(bool, int)>,
)
    ensures
        run2(vs, ids, dist, m, swap_plan(plan)) == match run2(vs, ids, dist, m, plan) {
            Some((h, e, seen)) => Some((e, h, seen)),
            None => None,
        },
    decreases plan.len(),
{
    if plan.len() > 0 {
        lemma_run2_swap(vs, ids, dist, m, plan.drop_last());
        assert(swap_plan(plan).drop_last() =~= swap_plan(plan.drop_last()));
        assert(swap_plan(plan).last() == (!plan.last().0, plan.last().1));
    }
}

/// The order of paths after one move from the start.
proof fn lemma_lex_short(a: i64, b: i64)
    ensures
        lex_from(seq![start_id()].push(a).push(b), seq![start_id()], 0) == 1,
        lex_from(seq![start_id()], seq![start_id()].push(a), 0) == -1,
        lex_from(seq![start_id()].push(a), seq![start_id()].push(b), 0) >= 0 <==> a >= b,
{
    reveal_with_fuel(lex_from, 4);
}

/// Every plan of two moves has, in the same pressure, a plan that starts
/// with the elephant and whose second move is one the search makes from
/// there: one that keeps the elephant's path from coming before the
/// walker's.
proof fn lemma_two_moves(
    vs: Seq<(int, int, Seq<i64>)>,
    ids: Seq<i64>,
    dist: Seq<Option<i32>>,
    m: int,
    a: (bool, int),
    b: (bool, int),
) -> (r: (int, (bool, int)))
    requires
        run2(vs, ids, dist, m, seq![a].push(b)) is Some,
    ensures
        ({
            let (h, e, _) = run2(vs, ids, dist, m, seq![a].push(b))->0;
            let (j2, mv) = r;
            &&& run2(vs, ids, dist, m, seq![(false, j2)]) is Some
            &&& run2(vs, ids, dist, m, seq![(false, j2)].push(mv)) matches Some((h2, e2, _))
            &&& lex_from(e2.0, h2.0, 0) >= 0
            &&& score_spec(h2, m) + score_spec(e2, m) == score_spec(h, m) + score_spec(e, m)
        }),
    decreases (if a.0 { 1int } else { 0int }),
{
    let p = seq![a].push(b);
    assert(p.drop_last() =~= seq![a]);
    assert(seq![a].drop_last() =~= Seq::<(bool, int)>::empty());
    assert(p.last() == b);
    assert(seq![a].last() == a);
    let st = start_state();
    let empty = Seq::<i64>::empty();
    assert(run2(vs, ids, dist, m, seq![a]) is Some);
    assert(run2(vs, ids, dist, m, Seq::<(bool, int)>::empty()) == Some((st, st, empty)));
    assert(0 <= a.1 < vs.len());
    assert(0 <= b.1 < vs.len());
    if !a.0 {
        let ia = vs[a.1].0 as i64;
        let ib = vs[b.1].0 as i64;
        let e1 = extend_spec(st, vs[a.1], m, empty, ids, dist)->0;
        assert(run2(vs, ids, dist, m, seq![a]) == Some((st, e1, empty.push(ia))));
        assert(st.0 =~= seq![start_id()]);
        assert(e1.0 =~= seq![start_id()].push(ia));
        if !b.0 {
            lemma_lex_short(ia, ib);
            let e2 = extend_spec(e1, vs[b.1], m, empty.push(ia), ids, dist)->0;
            assert(e2.0 =~= seq![start_id()].push(ia).push(ib));
            assert(run2(vs, ids, dist, m, p) == Some((st, e2, empty.push(ia).push(ib))));
            (a.1, b)
        } else {
            lemma_lex_short(ia, ib);
            lemma_lex_short(ib, ia);
            let h1 = extend_spec(st, vs[b.1], m, empty.push(ia), ids, dist)->0;
            assert(run2(vs, ids, dist, m, p) == Some((h1, e1, empty.push(ia).push(ib))));
            assert(h1.0 =~= seq![start_id()].push(ib));
            if ia >= ib {
                (a.1, b)
            } else {
                let q = seq![(false, b.1)].push((true, a.1));
                assert(q.drop_last() =~= seq![(false, b.1)]);
                assert(seq![(false, b.1)].drop_last() =~= Seq::<(bool, int)>::empty());
                assert(q.last() == (true, a.1));
                assert(seq![(false, b.1)].last() == (false, b.1));
                assert(empty.push(ia).contains(ib) == (ia == ib)) by {
                    if empty.push(ia).contains(ib) {
                        let i = choose|i: int| 0 <= i < empty.push(ia).len() && empty.push(ia)[i] == ib;
                        assert(i == 0);
                    }
                    if ia == ib {
                        assert(empty.push(ia)[0] == ib);
                    }
                }
                assert(!empty.contains(ib));
                assert(!empty.contains(ia));
                assert(empty.push(ib).contains(ia) == (ia == ib)) by {
                    if empty.push(ib).contains(ia) {
                        let i = choose|i: int| 0 <= i < empty.push(ib).len() && empty.push(ib)[i] == ia;
                        assert(i == 0);
                    }
                }
                assert(extend_spec(st, vs[b.1], m, empty, ids, dist) == Some(h1));
                assert(extend_spec(st, vs[a.1], m, empty.push(ib), ids, dist) == Some(e1));
                assert(run2(vs, ids, dist, m, seq![(false, b.1)]) == Some((st, h1, empty.push(ib))));
                assert(run2(vs, ids, dist, m, q) == Some((e1, h1, empty.push(ib).push(ia))));
                (b.1, (true, a.1))
            }
        }
    } else {
        let sp = swap_plan(p);
        lemma_run2_swap(vs, ids, dist, m, p);
        assert(sp =~= seq![(false, a.1)].push((!b.0, b.1)));
        let r2 = lemma_two_moves(vs, ids, dist, m, (false, a.1), (!b.0, b.1));
        r2
    }
}

/// Every elephant key in the table of best scores names a valve before
/// `j`.
pub open spec fn keys_before(bs: Map<i128, HashMap<i128, i32>>, vs: Seq<(int, int, Seq<i64>)>, j: int) -> bool {
    forall|k1: i128, k2: i128| bs.dom().contains(k1) && #[trigger] bs[k1]@.dom().contains(k2) ==> exists|j2: int, t: int|
        0 <= j2 < j && 0 <= t < 0x1_0000_0000 && k2 == #[trigger] slot(vs[j2].0 as i64, t)
}

/// For each valve before `j` that the elephant can open first, some entry
/// of `plans` is that move.
pub open spec fn first_moves_queued(
    vs: Seq<(int, int, Seq<i64>)>,
    ids: Seq<i64>,
    dist: Seq<Option<i32>>,
    m: int,
    plans: Seq<Seq<(bool, int)>>,
    j: int,
) -> bool {
    forall|j2: int| 0 <= j2 < j && (#[trigger] run2(vs, ids, dist, m, seq![(false, j2)])) is Some ==> exists|c: int|
        0 <= c < plans.len() && plans[c] == seq![(false, j2)]
}

/// Every move after `plan` of a valve before `j` that the search makes (one
/// that keeps the elephant's path from coming before the walker's) scores
/// at most `best`.
pub open spec fn children_scored(
    vs: Seq<(int, int, Seq<i64>)>,
    ids: Seq<i64>,
    dist: Seq<Option<i32>>,
    m: int,
    plan: Seq<(bool, int)>,
    j: int,
    best: int,
) -> bool {
    forall|mv: (bool, int)| 0 <= mv.1 < j ==> ((#[trigger] run2(vs, ids, dist, m, plan.push(mv))) matches Some((h, e, _))
        ==> (lex_from(e.0, h.0, 0) >= 0 ==> score_spec(h, m) + score_spec(e, m) <= best))
}

proof fn lemma_queued_grow(
    vs: Seq<(int, int, Seq<i64>)>,
    ids: Seq<i64>,
    dist: Seq<Option<i32>>,
    m: int,
    plans: Seq<Seq<(bool, int)>>,
    np: Seq<(bool, int)>,
    j: int,
)
    requires
        first_moves_queued(vs, ids, dist, m, plans, j),
    ensures
        first_moves_queued(vs, ids, dist, m, plans.push(np), j),
        forall|c: int| 0 <= c < plans.len() ==> #[trigger] plans.push(np)[c] == plans[c],
{
    assert forall|j2: int| 0 <= j2 < j && (#[trigger] run2(vs, ids, dist, m, seq![(false, j2)])) is Some implies exists|c: int|
        0 <= c < plans.push(np).len() && plans.push(np)[c] == seq![(false, j2)] by {
        let c = choose|c: int| 0 <= c < plans.len() && plans[c] == seq![(false, j2)];
        assert(plans.push(np)[c] == plans[c]);
    }
}

/// Searches for the most pressure a walker and an elephant together can
/// release by `max_time`, opening the given valves, in the same way as
/// `bfs_search1`; to avoid trying both of two mirrored states, a move is
/// only made while the elephant's path does not come before the walker's.
///
/// The pressure found is that of moves that the rules allow, and at least
/// that of every single move of the elephant; when no two valves share an
/// id, at least that of every two moves, of either walker, whatever order
/// the queue takes among equal scores.
pub fn bfs_search2(valves: &Vec<Valve>, adj: &Adjacency, max_time: i32) -> (r: i32)
    requires
        valves_fit(valves_view(valves@), max_time as int),
        adj_wf(adj.ids@, adj.dist@),
        adj_bounded(adj.dist@, max_time as int),
    ensures
        r >= 0,
        ({
            let best = r;
            &&& exists|plan: Seq<(bool, int)>| #[trigger] run2(valves_view(valves@), adj.ids@, adj.dist@, max_time as int, plan)
                matches Some((h, e, _)) && best == score_spec(h, max_time as int) + score_spec(e, max_time as int)
            &&& forall|j: int| 0 <= j < valves.len() ==> (#[trigger] run2(valves_view(valves@), adj.ids@, adj.dist@, max_time as int, seq![(false, j)])
                matches Some((h, e, _)) ==> score_spec(h, max_time as int) + score_spec(e, max_time as int) <= best)
            &&& distinct_ids(valves_view(valves@)) ==> forall|a: (bool, int), b: (bool, int)| (#[trigger] run2(
                valves_view(valves@),
                adj.ids@,
                adj.dist@,
                max_time as int,
                seq![a].push(b),
            )) matches Some((h, e, _)) ==> score_spec(h, max_time as int) + score_spec(e, max_time as int) <= best
        }),
{
    let ghost wb: int = (2 * valves@.len() + 1) as int;
    let ghost wd: int = if max_time > 0 { 2 * max_time as int } else { 0 };
    let ghost vs = valves_view(valves@);
    let ghost ids = adj.ids@;
    let ghost dist = adj.dist@;
    let ghost m = max_time as int;
    let ghost rate = rate_sum(vs);
    proof {
        lemma_rate_sum(vs);
    }
    let aa = match start_valve() {
        Some(id) => id,
        None => {
            return 0;
        },
    };
    let mut hp: Vec<i64> = Vec::new();
    hp.push(aa);
    let mut ep: Vec<i64> = Vec::new();
    ep.push(aa);
    let mut arena: Vec<Candidate2> = Vec::new();
    arena.push(Candidate2 {
        human: ScoredPath { path: Path { path: hp }, time: 0, flow: 0, total: 0 },
        elephant: ScoredPath { path: Path { path: ep }, time: 0, flow: 0, total: 0 },
        seen: Vec::new(),
    });
    let ghost mut plans: Seq<Seq<(bool, int)>> = seq![Seq::<(bool, int)>::empty()];
    proof {
        assert(sp_view(arena@[0].human) =~= start_state());
        assert(sp_view(arena@[0].elephant) =~= start_state());
        assert(arena@[0].seen@ =~= Seq::<i64>::empty());
    }
    let mut queue = queue_new();
    let ghost q0 = queue_items(queue).dom();
    queue_push(&mut queue, 0, 0);
    proof {
        vstd::set::fold::lemma_fold_empty(0, add_weight(plans, wb, wd));
        lemma_weight_insert(q0, plans, wb, wd, 0);
        assert(queue_items(queue).dom() == q0.insert(0));
        assert(queue_weight(queue_items(queue).dom(), plans, wb, wd) == pow(wb, wd as nat));
    }
    let mut best: i32 = 0;
    let ghost mut best_plan: Seq<(bool, int)> = Seq::empty();
    proof {
        assert(run2(vs, ids, dist, m, best_plan) == Some((start_state(), start_state(), Seq::<i64>::empty())));
        assert(score_spec(start_state(), m) == 0) by (nonlinear_arith)
            requires
                start_state().2 == 0,
                start_state().3 == 0,
        ;
    }
    let mut best_scores: HashMap<i128, HashMap<i128, i32>> = HashMap::new();
    proof {
        assert(best_scores@.dom() =~= Set::<i128>::empty());
        assert(queue_items(queue).dom() =~= set![0usize]);
    }
    let mut done = false;
    let ghost mut root_done = false;
    while !done
        invariant
            wb == (2 * valves@.len() + 1) as int,
            wd == (if max_time > 0 { 2 * max_time as int } else { 0 }),
            queue_items(queue).dom().finite(),
            forall|c: int| 0 <= c < plans.len() ==> (#[trigger] plans[c]).len() <= wd,
            best >= 0,
            vs == valves_view(valves@),
            ids == adj.ids@,
            dist == adj.dist@,
            m == max_time as int,
            rate == rate_sum(vs),
            0 <= rate,
            m * rate <= i32::MAX,
            rate <= i32::MAX,
            forall|k: int| 0 <= k < vs.len() ==> #[trigger] vs[k].1 <= rate,
            valves_fit(vs, m),
            adj_wf(ids, dist),
            adj_bounded(dist, m),
            arena@.len() == plans.len(),
            arena@.len() >= 1,
            plans[0] == Seq::<(bool, int)>::empty(),
            forall|c: int| 0 <= c < arena@.len() ==> #[trigger] cand2_ok(vs, ids, dist, m, plans[c],
                sp_view(arena@[c].human), sp_view(arena@[c].elephant), arena@[c].seen@),
            forall|k: usize| queue_items(queue).dom().contains(k) ==> k < arena@.len(),
            run2(vs, ids, dist, m, best_plan) matches Some((h, e, _)) && best == score_spec(h, m) + score_spec(e, m),
            !root_done ==> queue_items(queue).dom().contains(0),
            root_done ==> forall|j: int| 0 <= j < vs.len() ==> (#[trigger] run2(vs, ids, dist, m, seq![(false, j)]) matches Some((h, e, _))
                ==> score_spec(h, m) + score_spec(e, m) <= best),
            done ==> root_done,
            done ==> queue_items(queue).dom() == Set::<usize>::empty(),
            !root_done ==> queue_items(queue).dom() == set![0usize] && arena@.len() == 1 && best_scores@.dom() == Set::<
                i128,
            >::empty(),
            root_done ==> !queue_items(queue).dom().contains(0),
            root_done && distinct_ids(vs) ==> first_moves_queued(vs, ids, dist, m, plans, vs.len() as int),
            forall|c: int| 0 <= c < arena@.len() && !queue_items(queue).dom().contains(c as usize) && (#[trigger] plans[c]).len()
                == 1 ==> children_scored(vs, ids, dist, m, plans[c], vs.len() as int, best as int),
        decreases queue_weight(queue_items(queue).dom(), plans, wb, wd) + if done { 0int } else { 1int },
    {
        let ghost old_dom = queue_items(queue).dom();
        let ghost measure = queue_weight(old_dom, plans, wb, wd);
        match queue_pop(&mut queue) {
            None => {
                done = true;
            },
            Some((ci, _)) => {
                let _arena_len = arena.len();
                let ghost cplan = plans[ci as int];
                let ghost wp = weight(plans, wb, wd, ci);
                let ghost wc = if cplan.len() < wd { pow(wb, (wd - cplan.len() - 1) as nat) } else { 0 };
                let ghost mut kids: int = 0;
                proof {
                    lemma_weight_remove(old_dom, plans, wb, wd, ci);
                    assert(queue_items(queue).dom() == old_dom.remove(ci));
                    assert(wp == pow(wb, (wd - cplan.len()) as nat));
                    lemma_pow_positive(wb, (wd - cplan.len()) as nat);
                    if !root_done {
                        assert(old_dom.contains(ci));
                        assert(ci == 0);
                    }
                    assert forall|c: int| 0 <= c < arena@.len() && c != ci && !queue_items(queue).dom().contains(c as usize)
                        && (#[trigger] plans[c]).len() == 1 implies children_scored(vs, ids, dist, m, plans[c], vs.len() as int, best as int) by {
                        assert((c as usize) != ci);
                        assert(!old_dom.remove(ci).contains(c as usize));
                        assert(!old_dom.contains(c as usize));
                    }
                    if ci == 0 {
                        assert(keys_before(best_scores@, vs, 0));
                        assert(first_moves_queued(vs, ids, dist, m, plans, 0));
                    }
                }
                let mut j: usize = 0;
                while j < valves.len()
                    invariant
                        wb == (2 * valves@.len() + 1) as int,
                        wd == (if max_time > 0 { 2 * max_time as int } else { 0 }),
                                    queue_items(queue).dom().finite(),
                        forall|c: int| 0 <= c < plans.len() ==> (#[trigger] plans[c]).len() <= wd,
                        best >= 0,
                        0 <= kids <= 2 * j,
                        kids > 0 ==> cplan.len() < wd,
                        wp == pow(wb, (wd - cplan.len()) as nat),
                        wc == (if cplan.len() < wd { pow(wb, (wd - cplan.len() - 1) as nat) } else { 0 }),
                        wp >= 1,
                        queue_weight(queue_items(queue).dom(), plans, wb, wd) + wp <= measure + kids * wc,
                        vs == valves_view(valves@),
                        ids == adj.ids@,
                        dist == adj.dist@,
                        m == max_time as int,
                        rate == rate_sum(vs),
                        0 <= rate,
                        m * rate <= i32::MAX,
            rate <= i32::MAX,
                        forall|k: int| 0 <= k < vs.len() ==> #[trigger] vs[k].1 <= rate,
                        valves_fit(vs, m),
                        adj_wf(ids, dist),
                        adj_bounded(dist, m),
                        j <= valves.len(),
                        ci < arena@.len(),
                        cplan == plans[ci as int],
                        arena@.len() == plans.len(),
                        arena@.len() >= 1,
                        plans[0] == Seq::<(bool, int)>::empty(),
                        forall|c: int| 0 <= c < arena@.len() ==> #[trigger] cand2_ok(vs, ids, dist, m, plans[c],
                            sp_view(arena@[c].human), sp_view(arena@[c].elephant), arena@[c].seen@),
                        forall|k: usize| queue_items(queue).dom().contains(k) ==> k < arena@.len(),
                        run2(vs, ids, dist, m, best_plan) matches Some((h, e, _)) && best == score_spec(h, m) + score_spec(e, m),
                        !root_done ==> (ci == 0 || queue_items(queue).dom().contains(0)),
                        ci == 0 ==> forall|j2: int| 0 <= j2 < j ==> (#[trigger] run2(vs, ids, dist, m, seq![(false, j2)])
                            matches Some((h, e, _)) ==> score_spec(h, m) + score_spec(e, m) <= best),
                        root_done ==> forall|j2: int| 0 <= j2 < vs.len() ==> (#[trigger] run2(vs, ids, dist, m, seq![(false, j2)])
                            matches Some((h, e, _)) ==> score_spec(h, m) + score_spec(e, m) <= best),
                        ci == 0 ==> !root_done,
                        ci == 0 ==> cplan == Seq::<(bool, int)>::empty(),
                        !queue_items(queue).dom().contains(ci),
                        root_done ==> !queue_items(queue).dom().contains(0),
                        root_done && distinct_ids(vs) ==> first_moves_queued(vs, ids, dist, m, plans, vs.len() as int),
                        forall|c: int| 0 <= c < arena@.len() && c != ci && !queue_items(queue).dom().contains(c as usize)
                            && (#[trigger] plans[c]).len() == 1 ==> children_scored(vs, ids, dist, m, plans[c], vs.len() as int, best as int),
                        ci == 0 ==> keys_before(best_scores@, vs, j as int),
                        ci == 0 && distinct_ids(vs) ==> first_moves_queued(vs, ids, dist, m, plans, j as int),
                        cplan.len() == 1 ==> children_scored(vs, ids, dist, m, cplan, j as int, best as int),
                    decreases valves.len() - j,
                {
                    let ghost h0 = sp_view(arena@[ci as int].human);
                    let ghost e0 = sp_view(arena@[ci as int].elephant);
                    let ghost seen = arena@[ci as int].seen@;
                    let ghost hplan = cplan.push((true, j as int));
                    let ghost eplan = cplan.push((false, j as int));
                    proof {
                        assert(cand2_ok(vs, ids, dist, m, cplan, h0, e0, seen));
                        assert(hplan.drop_last() =~= cplan);
                        assert(eplan.drop_last() =~= cplan);
                        assert(vs[j as int] == valve_view(valves@[j as int]));
                        let x = vs[j as int].0 as i64;
                        lemma_run2_flow(vs, ids, dist, m, cplan);
                        lemma_opened_bounds(vs, seen);
                        lemma_state_room(h0, m, rate);
                        lemma_state_room(e0, m, rate);
                        if !seen.contains(x) {
                            lemma_opened_push(vs, seen, x);
                            lemma_opened_bounds(vs, seen.push(x));
                        }
                        if ci == 0 {
                            assert(eplan =~= seq![(false, j as int)]);
                        }
                        lemma_dist_nonneg(ids, dist, m, h0.0.last(), vs[j as int].0 as i64);
                        lemma_dist_nonneg(ids, dist, m, e0.0.last(), vs[j as int].0 as i64);
                    }
                    let mut new_candidates: Vec<Candidate2> = Vec::new();
                    let ghost mut new_plans: Seq<Seq<(bool, int)>> = Seq::empty();
                    let ghost x = vs[j as int].0 as i64;
                    let ghost best0 = best;
                    match extend(&arena[ci].human, &valves[j], max_time, &arena[ci].seen, adj) {
                        None => {
                            proof {
                                assert(run2(vs, ids, dist, m, hplan) is None);
                            }
                        },
                        Some(new_human) => {
                            proof {
                                assert(run2(vs, ids, dist, m, hplan) == Some((sp_view(new_human), e0, seen.push(x))));
                                if ci == 0 {
                                    assert(cplan =~= Seq::<(bool, int)>::empty());
                                    assert(h0 == start_state() && e0 == start_state());
                                    assert(sp_view(new_human).0 =~= seq![start_id()].push(x));
                                    assert(e0.0 =~= seq![start_id()]);
                                    lemma_lex_short(x, x);
                                }
                            }
                            if !path_ge(&arena[ci].elephant.path, &new_human.path) {
                                proof {
                                    assert(lex_from(e0.0, sp_view(new_human).0, 0) < 0);
                                }
                            } else {
                                let ghost q = sp_view(new_human);
                                proof {
                                    lemma_extend_ok(h0, vs[j as int], m, seen, ids, dist);
                                    assert(run2(vs, ids, dist, m, hplan) == Some((q, e0, seen.push(vs[j as int].0 as i64))));
                                    lemma_run2_flow(vs, ids, dist, m, hplan);
                                    lemma_opened_bounds(vs, seen.push(vs[j as int].0 as i64));
                                    lemma_state_room(q, m, rate);
                                    lemma_pair_room(q, e0, m, rate);
                                }
                                let score = new_human.score(max_time) + arena[ci].elephant.score(max_time);
                                if score > best {
                                    best = score;
                                    proof {
                                        best_plan = hplan;
                                    }
                                }
                                let mut new_seen = arena[ci].seen.clone();
                                new_seen.push(valves[j].id);
                                let new_elephant = copy_path(&arena[ci].elephant);
                                proof {
                                    assert(new_seen@ =~= seen.push(vs[j as int].0 as i64));
                                }
                                new_candidates.push(Candidate2 { human: new_human, elephant: new_elephant, seen: new_seen });
                                proof {
                                    new_plans = new_plans.push(hplan);
                                }
                            }
                        },
                    }
                    proof {
                        assert(run2(vs, ids, dist, m, hplan) matches Some((h, e, _)) ==> (lex_from(e.0, h.0, 0) >= 0
                            ==> score_spec(h, m) + score_spec(e, m) <= best));
                    }
                    let ghost best1 = best;
                    match extend(&arena[ci].elephant, &valves[j], max_time, &arena[ci].seen, adj) {
                        None => {
                            proof {
                                assert(run2(vs, ids, dist, m, eplan) is None);
                            }
                        },
                        Some(new_elephant) => {
                            proof {
                                assert(run2(vs, ids, dist, m, eplan) == Some((h0, sp_view(new_elephant), seen.push(x))));
                                if ci == 0 {
                                    assert(cplan =~= Seq::<(bool, int)>::empty());
                                    assert(h0 == start_state() && e0 == start_state());
                                    assert(sp_view(new_elephant).0 =~= seq![start_id()].push(x));
                                    assert(1 <= sp_view(new_elephant).1 < m);
                                }
                            }
                            proof {
                                if ci == 0 {
                                    reveal_with_fuel(lex_from, 3);
                                    assert(h0.0 == seq![start_id()]);
                                    assert(e0.0 == seq![start_id()]);
                                    assert(new_elephant.path.path@.len() == 2);
                                    assert(new_elephant.path.path@[0] == start_id());
                                    assert(lex_from(new_elephant.path.path@, h0.0, 0) == 1);
                                }
                            }
                            if !path_ge(&new_elephant.path, &arena[ci].human.path) {
                                proof {
                                    assert(lex_from(sp_view(new_elephant).0, h0.0, 0) < 0);
                                }
                            } else {
                                let ghost q = sp_view(new_elephant);
                                proof {
                                    lemma_extend_ok(e0, vs[j as int], m, seen, ids, dist);
                                    assert(run2(vs, ids, dist, m, eplan) == Some((h0, q, seen.push(vs[j as int].0 as i64))));
                                    lemma_run2_flow(vs, ids, dist, m, eplan);
                                    lemma_opened_bounds(vs, seen.push(vs[j as int].0 as i64));
                                    lemma_state_room(q, m, rate);
                                    lemma_pair_room(h0, q, m, rate);
                                }
                                let score = new_elephant.score(max_time) + arena[ci].human.score(max_time);
                                if score > best {
                                    best = score;
                                    proof {
                                        best_plan = eplan;
                                    }
                                }
                                let mut new_seen = arena[ci].seen.clone();
                                new_seen.push(valves[j].id);
                                let new_human = copy_path(&arena[ci].human);
                                proof {
                                    assert(new_seen@ =~= seen.push(vs[j as int].0 as i64));
                                }
                                new_candidates.push(Candidate2 { human: new_human, elephant: new_elephant, seen: new_seen });
                                proof {
                                    new_plans = new_plans.push(eplan);
                                }
                            }
                        },
                    }
                    proof {
                        assert(run2(vs, ids, dist, m, eplan) matches Some((h, e, _)) ==> (lex_from(e.0, h.0, 0) >= 0
                            ==> score_spec(h, m) + score_spec(e, m) <= best));
                        assert(best >= best1 && best1 >= best0);
                        if cplan.len() == 1 {
                            assert forall|mv: (bool, int)| 0 <= mv.1 < j + 1 implies ((#[trigger] run2(vs, ids, dist, m, cplan.push(mv)))
                                matches Some((h, e, _)) ==> (lex_from(e.0, h.0, 0) >= 0 ==> score_spec(h, m) + score_spec(e, m)
                                <= best)) by {
                                if mv.1 == j {
                                    if mv.0 {
                                        assert(cplan.push(mv) == hplan);
                                    } else {
                                        assert(cplan.push(mv) == eplan);
                                    }
                                }
                            }
                        }
                        if ci == 0 {
                            assert(new_plans.len() <= 1);
                            if new_plans.len() == 1 {
                                assert(new_plans[0] == eplan);
                            }
                            assert(eplan =~= seq![(false, j as int)]);
                        }
                    }
                    while new_candidates.len() > 0
                        invariant
                            wb == (2 * valves@.len() + 1) as int,
                            wd == (if max_time > 0 { 2 * max_time as int } else { 0 }),
                                            queue_items(queue).dom().finite(),
                            forall|c: int| 0 <= c < plans.len() ==> (#[trigger] plans[c]).len() <= wd,
                            best >= 0,
                            j < valves.len(),
                            0 <= kids,
                            kids + new_candidates@.len() <= 2 * j + 2,
                            kids > 0 ==> cplan.len() < wd,
                            forall|c: int| 0 <= c < new_plans.len() ==> (#[trigger] new_plans[c]).len() == cplan.len() + 1,
                            wp == pow(wb, (wd - cplan.len()) as nat),
                            wc == (if cplan.len() < wd { pow(wb, (wd - cplan.len() - 1) as nat) } else { 0 }),
                            wp >= 1,
                            queue_weight(queue_items(queue).dom(), plans, wb, wd) + wp <= measure + kids * wc,
                            vs == valves_view(valves@),
                            ids == adj.ids@,
                            dist == adj.dist@,
                            m == max_time as int,
                            rate == rate_sum(vs),
                            0 <= rate,
                            m * rate <= i32::MAX,
            rate <= i32::MAX,
                            valves_fit(vs, m),
                            adj_wf(ids, dist),
                            adj_bounded(dist, m),
                            ci < arena@.len(),
                            cplan == plans[ci as int],
                            arena@.len() == plans.len(),
                            arena@.len() >= 1,
                            plans[0] == Seq::<(bool, int)>::empty(),
                            forall|c: int| 0 <= c < arena@.len() ==> #[trigger] cand2_ok(vs, ids, dist, m, plans[c],
                                sp_view(arena@[c].human), sp_view(arena@[c].elephant), arena@[c].seen@),
                            new_plans.len() == new_candidates@.len(),
                            forall|c: int| 0 <= c < new_candidates@.len() ==> #[trigger] cand2_ok(vs, ids, dist, m, new_plans[c],
                                sp_view(new_candidates@[c].human), sp_view(new_candidates@[c].elephant), new_candidates@[c].seen@),
                            forall|k: usize| queue_items(queue).dom().contains(k) ==> k < arena@.len(),
                            run2(vs, ids, dist, m, best_plan) matches Some((h, e, _)) && best == score_spec(h, m) + score_spec(e, m),
                            !root_done ==> (ci == 0 || queue_items(queue).dom().contains(0)),
                            ci == 0 ==> forall|j2: int| 0 <= j2 <= j ==> (#[trigger] run2(vs, ids, dist, m, seq![(false, j2)])
                                matches Some((h, e, _)) ==> score_spec(h, m) + score_spec(e, m) <= best),
                            root_done ==> forall|j2: int| 0 <= j2 < vs.len() ==> (#[trigger] run2(vs, ids, dist, m, seq![(false, j2)])
                                matches Some((h, e, _)) ==> score_spec(h, m) + score_spec(e, m) <= best),
                            ci == 0 ==> !root_done,
                            ci == 0 ==> cplan == Seq::<(bool, int)>::empty(),
                            !queue_items(queue).dom().contains(ci),
                            root_done ==> !queue_items(queue).dom().contains(0),
                            root_done && distinct_ids(vs) ==> first_moves_queued(vs, ids, dist, m, plans, vs.len() as int),
                            forall|c: int| 0 <= c < arena@.len() && c != ci && !queue_items(queue).dom().contains(c as usize)
                                && (#[trigger] plans[c]).len() == 1 ==> children_scored(vs, ids, dist, m, plans[c], vs.len() as int, best as int),
                            ci == 0 ==> keys_before(best_scores@, vs, j + 1),
                            ci == 0 ==> keys_before(best_scores@, vs, j as int) || new_candidates@.len() == 0,
                            ci == 0 ==> new_candidates@.len() <= 1,
                            ci == 0 ==> forall|c: int| 0 <= c < new_plans.len() ==> new_plans[c] == seq![(false, j as int)],
                            ci == 0 ==> (run2(vs, ids, dist, m, seq![(false, j as int)]) matches Some((h, e, _)) ==> h == start_state()
                                && e.0 == seq![start_id()].push(x) && 1 <= e.1 < m),
                            x == vs[j as int].0 as i64,
                            ci == 0 && distinct_ids(vs) ==> first_moves_queued(vs, ids, dist, m, plans, j as int),
                            ci == 0 && distinct_ids(vs) && run2(vs, ids, dist, m, seq![(false, j as int)]) is Some ==> (
                            new_candidates@.len() > 0 || exists|c: int| 0 <= c < plans.len() && plans[c] == seq![(false, j as int)]),
                            cplan.len() == 1 ==> children_scored(vs, ids, dist, m, cplan, j + 1, best as int),
                        decreases new_candidates@.len(),
                    {
                        let ghost np = new_plans[0];
                        proof {
                            assert(cand2_ok(vs, ids, dist, m, np, sp_view(new_candidates@[0].human),
                                sp_view(new_candidates@[0].elephant), new_candidates@[0].seen@));
                        }
                        let ghost before_c = new_candidates@;
                        let ghost before_p = new_plans;
                        let nc = new_candidates.remove(0);
                        proof {
                            new_plans = new_plans.drop_first();
                            assert forall|c: int| 0 <= c < new_candidates@.len() implies #[trigger] cand2_ok(vs, ids, dist, m, new_plans[c],
                                sp_view(new_candidates@[c].human), sp_view(new_candidates@[c].elephant), new_candidates@[c].seen@) by {
                                assert(cand2_ok(vs, ids, dist, m, before_p[c + 1], sp_view(before_c[c + 1].human),
                                    sp_view(before_c[c + 1].elephant), before_c[c + 1].seen@));
                                assert(new_candidates@[c] == before_c[c + 1]);
                            }
                            lemma_run2_flow(vs, ids, dist, m, np);
                            lemma_opened_bounds(vs, nc.seen@);
                            lemma_state_room(sp_view(nc.human), m, rate);
                            lemma_state_room(sp_view(nc.elephant), m, rate);
                            lemma_pair_room(sp_view(nc.human), sp_view(nc.elephant), m, rate);
                        }
                        let score = nc.elephant.score(max_time) + nc.human.score(max_time);
                        if score > best {
                            best = score;
                            proof {
                                best_plan = np;
                            }
                        }
                        let mut was_best = false;
                        let hl = nc.human.path.path.len() - 1;
                        let el = nc.elephant.path.path.len() - 1;
                        let hpos = nc.human.path.path[hl];
                        let epos = nc.elephant.path.path[el];
                        proof {
                            assert(state_ok(sp_view(nc.human), m) && state_ok(sp_view(nc.elephant), m));
                            if ci == 0 {
                                assert(np == seq![(false, j as int)]);
                                assert(np.drop_last() =~= Seq::<(bool, int)>::empty());
                                assert(run2(vs, ids, dist, m, np) == Some((sp_view(nc.human), sp_view(nc.elephant), nc.seen@)));
                                assert(sp_view(nc.human) == start_state());
                                assert(nc.elephant.path.path@ == seq![start_id()].push(x));
                                assert(epos == x);
                                assert(nc.human.time == 0);
                                assert(1 <= nc.elephant.time < max_time);
                            }
                        }
                        let mut th = nc.human.time;
                        while th < max_time
                            invariant
                                0 <= nc.human.time <= th,
                                0 <= nc.elephant.time,
                                ci == 0 ==> epos == x && x == vs[j as int].0 as i64 && nc.human.time == 0 && nc.elephant.time
                                    < max_time,
                                ci == 0 ==> keys_before(best_scores@, vs, j + 1),
                                ci == 0 ==> was_best || keys_before(best_scores@, vs, j as int),
                                ci == 0 && distinct_ids(vs) && th > nc.human.time ==> was_best,
                                0 <= j < vs.len(),
                                vs == valves_view(valves@),
                            decreases max_time - th,
                        {
                            let mut te = nc.elephant.time;
                            while te < max_time
                                invariant
                                    0 <= nc.human.time <= th < max_time,
                                    0 <= nc.elephant.time <= te,
                                    ci == 0 ==> epos == x && x == vs[j as int].0 as i64 && nc.human.time == 0
                                        && nc.elephant.time < max_time,
                                    ci == 0 ==> keys_before(best_scores@, vs, j + 1),
                                    ci == 0 ==> was_best || keys_before(best_scores@, vs, j as int),
                                    ci == 0 && distinct_ids(vs) && (th > nc.human.time || te > nc.elephant.time) ==> was_best,
                                    0 <= j < vs.len(),
                                    vs == valves_view(valves@),
                                decreases max_time - te,
                            {
                                let k1 = slot_of(hpos, th);
                                let k2 = slot_of(epos, te);
                                proof {
                                    if ci == 0 && distinct_ids(vs) && !was_best {
                                        if best_scores@.dom().contains(k1) && best_scores@[k1]@.dom().contains(k2) {
                                            let (j2, t) = choose|j2: int, t: int| 0 <= j2 < j && 0 <= t < 0x1_0000_0000 && k2
                                                == #[trigger] slot(vs[j2].0 as i64, t);
                                            lemma_slot(epos, te as int, vs[j2].0 as i64, t);
                                            assert(vs[j2].0 != vs[j as int].0);
                                        }
                                    }
                                }
                                let is_best = match best_scores.get(&k1) {
                                    Some(inner) => match inner.get(&k2) {
                                        Some(b) => score >= *b,
                                        None => true,
                                    },
                                    None => true,
                                };
                                if is_best {
                                    was_best = true;
                                    let ghost old_bs = best_scores@;
                                    let mut inner = match best_scores.remove(&k1) {
                                        Some(i) => i,
                                        None => HashMap::new(),
                                    };
                                    let ghost old_inner = inner@;
                                    inner.insert(k2, score);
                                    best_scores.insert(k1, inner);
                                    proof {
                                        assert(old_bs.dom().contains(k1) ==> old_inner == old_bs[k1]@);
                                        assert(!old_bs.dom().contains(k1) ==> old_inner == Map::<i128, i32>::empty());
                                        if ci == 0 {
                                            assert forall|a1: i128, a2: i128| best_scores@.dom().contains(a1) && #[trigger] best_scores@[
                                                a1]@.dom().contains(a2) implies exists|j2: int, t: int| 0 <= j2 < j + 1 && 0 <= t
                                                < 0x1_0000_0000 && a2 == #[trigger] slot(vs[j2].0 as i64, t) by {
                                                if a1 == k1 {
                                                    if a2 == k2 {
                                                        assert(0 <= j < j + 1 && 0 <= te < 0x1_0000_0000 && a2 == slot(
                                                            vs[j as int].0 as i64,
                                                            te as int,
                                                        ));
                                                    } else {
                                                        assert(old_bs.dom().contains(k1) && old_bs[k1]@.dom().contains(a2));
                                                    }
                                                } else {
                                                    assert(old_bs.dom().contains(a1) && old_bs[a1]@.dom().contains(a2));
                                                }
                                            }
                                        }
                                    }
                                }
                                te = te + 1;
                            }
                            th = th + 1;
                        }
                        if was_best {
                            let ghost dom_before = queue_items(queue).dom();
                            proof {
                                lemma_run2_len(vs, ids, dist, m, np);
                                lemma_weight_push(dom_before, plans, wb, wd, np);
                            }
                            arena.push(nc);
                            let ghost old_plans = plans;
                            proof {
                                if ci == 0 && distinct_ids(vs) {
                                    lemma_queued_grow(vs, ids, dist, m, old_plans, np, j as int);
                                }
                                if root_done && distinct_ids(vs) {
                                    lemma_queued_grow(vs, ids, dist, m, old_plans, np, vs.len() as int);
                                }
                                assert forall|c: int| 0 <= c < old_plans.len() implies #[trigger] old_plans.push(np)[c] == old_plans[c] by {}
                                plans = plans.push(np);
                                assert(plans[plans.len() - 1] == np);
                            }
                            queue_push(&mut queue, arena.len() - 1, score);
                            proof {
                                let k = (arena.len() - 1) as usize;
                                assert(!dom_before.contains(k));
                                lemma_weight_insert(dom_before, plans, wb, wd, k);
                                assert(queue_items(queue).dom() == dom_before.insert(k));
                                assert(weight(plans, wb, wd, k) == wc);
                                assert(kids * wc + wc == (kids + 1) * wc) by (nonlinear_arith);
                                kids = kids + 1;
                            }
                        } else {
                            proof {
                                if ci == 0 && distinct_ids(vs) {
                                    assert(false);
                                }
                            }
                        }
                    }
                    proof {
                        if ci == 0 && distinct_ids(vs) {
                            assert forall|j2: int| 0 <= j2 < j + 1 && (#[trigger] run2(vs, ids, dist, m, seq![(false, j2)])) is Some
                                implies exists|c: int| 0 <= c < plans.len() && plans[c] == seq![(false, j2)] by {
                                if j2 < j {
                                } else {
                                    assert(j2 == j);
                                }
                            }
                        }
                    }
                    j = j + 1;
                }
                proof {
                    if ci == 0 {
                        root_done = true;
                    }
                    if kids > 0 {
                        assert(wp == wb * wc) by {
                            let e: nat = (wd - cplan.len()) as nat;
                            assert(e > 0);
                            reveal(pow);
                            assert(pow(wb, e) == wb * pow(wb, (e - 1) as nat));
                            assert((e - 1) as nat == (wd - cplan.len() - 1) as nat);
                        }
                        lemma_pow_positive(wb, (wd - cplan.len() - 1) as nat);
                        assert(kids * wc + 1 <= wb * wc) by (nonlinear_arith)
                            requires
                                kids <= wb - 1,
                                wc >= 1,
                        ;
                    } else {
                        assert(kids * wc == 0) by (nonlinear_arith)
                            requires
                                kids == 0,
                        ;
                    }
                }
            },
        }
        proof {
            lemma_weight_nonneg(queue_items(queue).dom(), plans, wb, wd);
        }
    }
    let _arena_len = arena.len();
    proof {
        if distinct_ids(vs) {
            assert forall|a: (bool, int), b: (bool, int)| true implies ((#[trigger] run2(vs, ids, dist, m, seq![a].push(b)))
                matches Some((h, e, _)) ==> score_spec(h, m) + score_spec(e, m) <= best) by {
                if run2(vs, ids, dist, m, seq![a].push(b)) is Some {
                    let (j2, mv) = lemma_two_moves(vs, ids, dist, m, a, b);
                    assert(seq![(false, j2)].drop_last() =~= Seq::<(bool, int)>::empty());
                    assert(0 <= j2 < vs.len());
                    let c = choose|c: int| 0 <= c < plans.len() && plans[c] == seq![(false, j2)];
                    assert(plans[c].len() == 1);
                    assert(!queue_items(queue).dom().contains(c as usize));
                    assert(plans[c].push(mv) =~= seq![(false, j2)].push(mv));
                    assert(seq![(false, j2)].push(mv).drop_last() =~= seq![(false, j2)]);
                    assert(0 <= mv.1 < vs.len());
                    assert(children_scored(vs, ids, dist, m, plans[c], vs.len() as int, best as int));
                }
            }
        }
    }
    best
}

proof fn lemma_dist_nonneg(ids: Seq<i64>, dist: Seq<Option<i32>>, m: int, from: i64, to: i64)
    requires
        adj_wf(ids, dist),
        adj_bounded(dist, m),
    ensures
        dist_of(ids, dist, from, to) matches Some(d) ==> 0 <= d,
{
    if let Some(d) = dist_of(ids, dist, from, to) {
        let a = ids.index_of_first(from)->0;
        let b = ids.index_of_first(to)->0;
        ids.index_of_first_ensures(from);
        ids.index_of_first_ensures(to);
        lemma_cell(ids.len() as int, a, b);
        assert(dist[a * ids.len() + b] matches Some(x) && x == d);
    }
}

/// The ids of the valves, in order.
pub open spec fn valve_ids(vs: Seq<(int, int, Seq<i64>)>) -> Seq<i64> {
    vs.map_values(|v: (int, int, Seq<i64>)| v.0 as i64)
}

/// Whether every rate is at least zero and the rates together, and
/// `max_time` times them, fit in `i32`.
fn rates_fit(valves: &Vec<Valve>, max_time: i32) -> (r: bool)
    ensures
        r == valves_fit(valves_view(valves@), max_time as int),
{
    let ghost vs = valves_view(valves@);
    let mut sum: i64 = 0;
    let mut k: usize = 0;
    while k < valves.len()
        invariant
            vs == valves_view(valves@),
            k <= valves.len(),
            forall|j: int| 0 <= j < k ==> 0 <= #[trigger] vs[j].1,
            sum == rate_sum(vs.take(k as int)),
            0 <= sum <= i32::MAX,
        decreases valves.len() - k,
    {
        let rate = valves[k].rate;
        proof {
            assert(vs[k as int].1 == rate);
            assert(vs.take(k + 1).drop_last() =~= vs.take(k as int));
        }
        if rate < 0 {
            return false;
        }
        sum = sum + rate as i64;
        if sum > 0x7fff_ffff {
            proof {
                lemma_rate_sum_prefix(vs, k + 1);
            }
            return false;
        }
        k = k + 1;
    }
    proof {
        assert(vs.take(k as int) =~= vs);
        assert(-0x8000_0000 * 0x7fff_ffff <= max_time * sum <= 0x7fff_ffff * 0x7fff_ffff) by (nonlinear_arith)
            requires
                -0x8000_0000 <= max_time <= 0x7fff_ffff,
                0 <= sum <= 0x7fff_ffff,
        ;
    }
    (max_time as i64) * sum <= 0x7fff_ffff
}

/// With rates at least zero, the sum of the first `k` is at most the sum
/// of all.
proof fn lemma_rate_sum_prefix(vs: Seq<(int, int, Seq<i64>)>, k: int)
    requires
        0 <= k <= vs.len(),
    ensures
        rates_nonneg(vs) ==> rate_sum(vs.take(k)) <= rate_sum(vs),
    decreases vs.len() - k,
{
    if k < vs.len() && rates_nonneg(vs) {
        lemma_rate_sum_prefix(vs, k + 1);
        assert(vs.take(k + 1).drop_last() =~= vs.take(k));
        assert(0 <= vs[k].1);
    } else if k == vs.len() {
        assert(vs.take(k) =~= vs);
    }
}

/// Whether every distance leaves room to add `max_time`.
fn distances_fit(adj: &Adjacency, max_time: i32) -> (r: bool)
    ensures
        r == adj_bounded(adj.dist@, max_time as int),
{
    let mut k: usize = 0;
    while k < adj.dist.len()
        invariant
            k <= adj.dist.len(),
            forall|j: int| 0 <= j < k ==> (#[trigger] adj.dist@[j] matches Some(d) ==> 0 <= d < i32::MAX && d + max_time
                < i32::MAX),
        decreases adj.dist.len() - k,
    {
        match adj.dist[k] {
            Some(d) => {
                if d < 0 || d == i32::MAX || (d as i64) + (max_time as i64) >= 0x7fff_ffff {
                    return false;
                }
            },
            None => {},
        }
        k = k + 1;
    }
    true
}

/// The distances between the valves, as `build_adj` gives them: sound,
/// least, and zero from each valve to itself.
pub open spec fn table_ok(vs: Seq<(int, int, Seq<i64>)>, dist: Seq<Option<i32>>) -> bool {
    &&& adj_sound(vs, dist)
    &&& adj_least(vs, dist)
    &&& forall|i: int| 0 <= i < vs.len() ==> #[trigger] dist[i * vs.len() + i] == Some(0i32)
}

/// Reads the valves and searches for the most pressure released by
/// `max_time`, alone or with the elephant (`part2`). `Ok(None)` exactly
/// when the numbers would not fit: too many valves to index their pairs,
/// or rates, times or distances too large for the search's arithmetic.
pub fn process(lines: &Vec<String>, max_time: i32, part2: bool) -> (r: Result<Option<i32>, Error>)
    ensures
        read_spec(lines@.map_values(|l: String| l@)) matches Err(e) ==> r matches Err(x) && err_view(x) == e,
        read_spec(lines@.map_values(|l: String| l@)) matches Ok(vs) ==> {
            &&& r is Ok
            &&& vs.len() * vs.len() > usize::MAX ==> r == Ok::<Option<i32>, Error>(None)
            &&& forall|dist: Seq<Option<i32>>| #[trigger] table_ok(vs, dist) ==> {
                &&& (r == Ok::<Option<i32>, Error>(None) <==> (vs.len() * vs.len() > usize::MAX || !valves_fit(useful(vs), max_time as int)
                    || !adj_bounded(dist, max_time as int)))
                &&& r matches Ok(Some(best)) ==> best >= 0 && if part2 {
                    &&& exists|plan: Seq<(bool, int)>| #[trigger] run2(useful(vs), valve_ids(vs), dist, max_time as int, plan) matches Some(
                        (h, e, _),
                    ) && best == score_spec(h, max_time as int) + score_spec(e, max_time as int)
                    &&& forall|j: int| 0 <= j < useful(vs).len() ==> (#[trigger] run2(useful(vs), valve_ids(vs), dist, max_time as int, seq![(false, j)])
                        matches Some((h, e, _)) ==> score_spec(h, max_time as int) + score_spec(e, max_time as int) <= best)
                    &&& distinct_ids(useful(vs)) ==> forall|a: (bool, int), b: (bool, int)| (#[trigger] run2(
                        useful(vs),
                        valve_ids(vs),
                        dist,
                        max_time as int,
                        seq![a].push(b),
                    )) matches Some((h, e, _)) ==> score_spec(h, max_time as int) + score_spec(e, max_time as int) <= best
                } else {
                    &&& exists|plan: Seq<int>| #[trigger] run1(useful(vs), valve_ids(vs), dist, max_time as int, plan) matches Some((p, _))
                        && best == score_spec(p, max_time as int)
                    &&& forall|j: int| 0 <= j < useful(vs).len() ==> (#[trigger] run1(useful(vs), valve_ids(vs), dist, max_time as int, seq![j])
                        matches Some((p, _)) ==> score_spec(p, max_time as int) <= best)
                    &&& distinct_ids(useful(vs)) ==> forall|j: int, k: int| (#[trigger] run1(
                        useful(vs),
                        valve_ids(vs),
                        dist,
                        max_time as int,
                        seq![j].push(k),
                    )) matches Some((p, _)) ==> score_spec(p, max_time as int) <= best
                }
            }
        },
{
    let valves = match read_input(lines) {
        Ok(v) => v,
        Err(e) => {
            return Err(e);
        },
    };
    let ghost vs = valves_view(valves@);
    let n = valves.len();
    if n.checked_mul(n).is_none() {
        proof {
            assert(vs.len() == n);
        }
        return Ok(None);
    }
    let adj = build_adj(&valves);
    let useful = get_useful_valves(&valves);
    proof {
        assert(adj.ids@ =~= valve_ids(vs));
        lemma_table_unique(vs, adj.dist@);
    }
    if !rates_fit(&useful, max_time) || !distances_fit(&adj, max_time) {
        return Ok(None);
    }
    let ans = if part2 {
        bfs_search2(&useful, &adj, max_time)
    } else {
        bfs_search1(&useful, &adj, max_time)
    };
    Ok(Some(ans))
}

/// Only one table of distances is sound, least and zero on the diagonal.
proof fn lemma_table_unique(vs: Seq<(int, int, Seq<i64>)>, d1: Seq<Option<i32>>)
    requires
        table_ok(vs, d1),
    ensures
        forall|d2: Seq<Option<i32>>| #[trigger] table_ok(vs, d2) ==> d2 == d1,
{
    assert forall|d2: Seq<Option<i32>>| #[trigger] table_ok(vs, d2) implies d2 == d1 by {
        let n = vs.len() as int;
        assert forall|x: int| 0 <= x < d1.len() implies d2[x] == d1[x] by {
            let a = x / n;
            let b = x % n;
            assert(n > 0) by (nonlinear_arith)
                requires
                    0 <= x < n * n,
                    n >= 0,
            ;
            vstd::arithmetic::div_mod::lemma_fundamental_div_mod(x, n);
            assert(0 <= b < n);
            assert(0 <= a < n && x == a * n + b) by (nonlinear_arith)
                requires
                    0 <= x < n * n,
                    x == n * a + b,
                    0 <= b < n,
                    n > 0,
            ;
            if a != b {
                if let Some(v) = d1[x] {
                    assert(d1[a * n + b] matches Some(y) && y >= 1 && walk_of(vs, a, b, y as int));
                    assert(walk_of(vs, a, b, v as int));
                    assert(match d2[a * vs.len() + b] {
                        Some(y) => y <= v,
                        None => false,
                    });
                }
                if let Some(v) = d2[x] {
                    assert(d2[a * n + b] matches Some(y) && y >= 1 && walk_of(vs, a, b, y as int));
                    assert(walk_of(vs, a, b, v as int));
                    assert(match d1[a * vs.len() + b] {
                        Some(y) => y <= v,
                        None => false,
                    });
                }
            } else {
                assert(d1[a * n + a] == Some(0i32));
                assert(d2[a * n + a] == Some(0i32));
            }
        }
        assert(d2 =~= d1);
    }
}
} // verus!
