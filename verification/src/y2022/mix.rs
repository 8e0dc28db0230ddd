//! Grove positioning system: mix a circular list of numbers, each moving
//! forward or back by its value in the order they first appeared, then sum
//! the numbers 1000, 2000 and 3000 places after the zero.
use vstd::prelude::*;
use crate::text::{nonblank, nonblank_lines, parse_i32, parse_int, views_of};
use vstd::arithmetic::div_mod::{lemma_fundamental_div_mod, lemma_mod_multiples_vanish, lemma_small_mod};

verus! {

/// Errors of this puzzle.
pub enum Error {
    /// A line that is not an `i32`; the text is the line, trimmed.
    InvalidNumber(String),
}

/// A number of the file, tagged with an id that tells it apart from equal
/// numbers.
pub struct Node {
    pub id: u64,
    pub val: i32,
}

/// Where a number at position `i` moves in a list of `n` numbers: its
/// value on, counted among the `n - 1` others, never to the front unless
/// it was there.
pub open spec fn mix_target(i: int, val: int, n: int) -> int {
    let j = (i + val) % (n - 1);
    if j == 0 && i != 0 {
        n - 1
    } else {
        j
    }
}

/// `k` occurs in the first `n` places of `arr`.
pub open spec fn present(arr: Seq<int>, n: int, k: int) -> bool {
    exists|i: int| 0 <= i < n && arr[i] == k
}

/// `arr` holds each of `0 .. n` once.
pub open spec fn is_perm(arr: Seq<int>, n: int) -> bool {
    &&& arr.len() == n
    &&& forall|i: int| 0 <= i < n ==> 0 <= #[trigger] arr[i] < n
    &&& forall|i: int, j: int| 0 <= i < j < n ==> arr[i] != arr[j]
    &&& forall|k: int| 0 <= k < n ==> #[trigger] present(arr, n, k)
}

/// The position of `k` in `arr`.
pub open spec fn index_in(arr: Seq<int>, k: int) -> int {
    choose|i: int| 0 <= i < arr.len() && arr[i] == k
}

/// The arrangement after number `k` (by starting position) has moved.
pub open spec fn mix_one(arr: Seq<int>, k: int, vals: Seq<i32>) -> Seq<int> {
    let i = index_in(arr, k);
    arr.remove(i).insert(mix_target(i, vals[k] as int, arr.len() as int), k)
}

/// The arrangement, as starting positions, after the first `m` numbers
/// have moved.
pub open spec fn mix_upto(vals: Seq<i32>, m: nat) -> Seq<int>
    decreases m,
{
    if m == 0 {
        Seq::new(vals.len(), |i: int| i)
    } else {
        mix_one(mix_upto(vals, (m - 1) as nat), m - 1, vals)
    }
}

/// The numbers after every one has moved once.
pub open spec fn mixed(vals: Seq<i32>) -> Seq<i32> {
    mix_upto(vals, vals.len()).map_values(|k: int| vals[k])
}

proof fn lemma_target_range(i: int, val: int, n: int)
    requires
        n >= 2,
        0 <= i < n,
    ensures
        0 <= mix_target(i, val, n) < n,
{
}

proof fn lemma_index_in(arr: Seq<int>, n: int, k: int)
    requires
        is_perm(arr, n),
        0 <= k < n,
    ensures
        0 <= index_in(arr, k) < n,
        arr[index_in(arr, k)] == k,
        forall|i: int| 0 <= i < n && arr[i] == k ==> i == index_in(arr, k),
{
    assert(present(arr, n, k));
    let i0 = index_in(arr, k);
    assert forall|i: int| 0 <= i < n && arr[i] == k implies i == i0 by {
        if i < i0 {
            assert(arr[i] != arr[i0]);
        } else if i0 < i {
            assert(arr[i0] != arr[i]);
        }
    }
}

/// Moving a number keeps every number in the list exactly once.
pub proof fn lemma_mix_one_perm(arr: Seq<int>, k: int, vals: Seq<i32>)
    requires
        is_perm(arr, vals.len() as int),
        vals.len() >= 2,
        0 <= k < vals.len(),
    ensures
        is_perm(mix_one(arr, k, vals), vals.len() as int),
{
    let n = vals.len() as int;
    lemma_index_in(arr, n, k);
    let i = index_in(arr, k);
    let j = mix_target(i, vals[k] as int, n);
    lemma_target_range(i, vals[k] as int, n);
    let r = arr.remove(i);
    let out = r.insert(j, k);
    assert forall|a: int| 0 <= a < n implies 0 <= #[trigger] out[a] < n by {
        if a < j {
            assert(out[a] == r[a]);
        } else if a > j {
            assert(out[a] == r[a - 1]);
        }
    }
    assert forall|a: int, b: int| 0 <= a < b < n implies out[a] != out[b] by {
        let ra = if a < j { a } else { a - 1 };
        let rb = if b < j { b } else { b - 1 };
        let ia = if ra < i { ra } else { ra + 1 };
        let ib = if rb < i { rb } else { rb + 1 };
        if a != j && b != j {
            assert(out[a] == arr[ia]);
            assert(out[b] == arr[ib]);
        } else if a == j {
            assert(out[b] == arr[ib]);
            assert(ib != i);
        } else {
            assert(out[a] == arr[ia]);
            assert(ia != i);
        }
    }
    assert forall|c: int| 0 <= c < n implies #[trigger] present(out, n, c) by {
        if c == k {
            assert(out[j] == k);
        } else {
            assert(present(arr, n, c));
            let w = choose|w: int| 0 <= w < n && arr[w] == c;
            assert(w != i);
            let rw = if w < i { w } else { w - 1 };
            assert(r[rw] == c);
            let a = if rw < j { rw } else { rw + 1 };
            assert(out[a] == c);
        }
    }
}

/// However far the mixing has gone, the list holds every number exactly
/// once.
pub proof fn lemma_mix_perm(vals: Seq<i32>, m: nat)
    requires
        vals.len() >= 2,
        m <= vals.len(),
    ensures
        is_perm(mix_upto(vals, m), vals.len() as int),
    decreases m,
{
    let n = vals.len() as int;
    if m == 0 {
        let arr = Seq::new(vals.len(), |i: int| i);
        assert forall|k: int| 0 <= k < n implies #[trigger] present(arr, n, k) by {
            assert(arr[k] == k);
        }
    } else {
        lemma_mix_perm(vals, (m - 1) as nat);
        lemma_mix_one_perm(mix_upto(vals, (m - 1) as nat), m - 1, vals);
    }
}

/// Rust's `%` on integers: the remainder takes the sign of `x`.
pub open spec fn trunc_rem(x: int, l: int) -> int {
    if x >= 0 {
        x % l
    } else {
        -((-x) % l)
    }
}

proof fn lemma_rem_fix(x: int, l: int)
    requires
        l > 0,
    ensures
        (trunc_rem(x, l) + l) % l == x % l,
        -l < trunc_rem(x, l) < l,
{
    if x >= 0 {
        let t = x % l;
        lemma_mod_multiples_vanish(1, t, l);
        lemma_small_mod(t as nat, l as nat);
    } else {
        let t = (-x) % l;
        let q = (-x) / l;
        lemma_fundamental_div_mod(-x, l);
        assert(l * (-q - 1) + (l - t) == x) by (nonlinear_arith)
            requires
                -x == l * q + t,
        {
        }
        lemma_mod_multiples_vanish(-q - 1, l - t, l);
        if t == 0 {
            lemma_mod_multiples_vanish(1, 0, l);
        }
    }
}

/// The first position of `id` in `v`.
fn position(v: &Vec<u64>, id: u64) -> (r: usize)
    requires
        exists|i: int| 0 <= i < v.len() && v@[i] == id,
    ensures
        r < v.len(),
        v@[r as int] == id,
        forall|i: int| 0 <= i < r ==> v@[i] != id,
{
    let n = v.len();
    let mut k: usize = 0;
    while k < n
        invariant
            n == v.len(),
            k <= n,
            forall|i: int| 0 <= i < k ==> v@[i] != id,
            exists|i: int| 0 <= i < v.len() && v@[i] == id,
        decreases n - k,
    {
        if v[k] == id {
            return k;
        }
        k = k + 1;
    }
    k
}

/// The ids of an arrangement of the numbers.
pub open spec fn id_order(arr: Seq<int>, ids: Seq<u64>) -> Seq<u64> {
    arr.map_values(|k: int| ids[k])
}

/// No two numbers share an id.
pub open spec fn distinct_ids(ids: Seq<u64>) -> bool {
    forall|i: int, j: int| 0 <= i < j < ids.len() ==> ids[i] != ids[j]
}

/// Numbers whose moves stay within `i32`.
pub open spec fn values_ok(vals: Seq<i32>) -> bool {
    &&& 2 <= vals.len() <= i32::MAX / 2
    &&& forall|k: int| 0 <= k < vals.len() ==> i32::MIN + vals.len() <= #[trigger] vals[k] <= i32::MAX - vals.len()
}

/// Mixes the numbers, each told apart by its id.
pub fn mix(values: &Vec<i32>, ids: &Vec<u64>) -> (r: Vec<i32>)
    requires
        values_ok(values@),
        ids.len() == values.len(),
        distinct_ids(ids@),
    ensures
        r@ == mixed(values@),
{
    let ghost vals = values@;
    let n = values.len();
    let mut nodes: Vec<Node> = Vec::new();
    let mut rearranged: Vec<u64> = Vec::new();
    let mut k: usize = 0;
    while k < n
        invariant
            n == values.len(),
            n == ids.len(),
            k <= n,
            nodes.len() == k,
            forall|i: int| 0 <= i < k ==> (#[trigger] nodes@[i]).id == ids@[i] && nodes@[i].val == values@[i],
            rearranged@ == ids@.take(k as int),
        decreases n - k,
    {
        nodes.push(Node { id: ids[k], val: values[k] });
        rearranged.push(ids[k]);
        assert(rearranged@ =~= ids@.take(k + 1));
        k = k + 1;
    }
    proof {
        assert(rearranged@ =~= id_order(mix_upto(vals, 0), ids@));
    }
    let mut m: usize = 0;
    while m < n
        invariant
            n == values.len(),
            n == ids.len(),
            n == nodes.len(),
            vals == values@,
            values_ok(vals),
            distinct_ids(ids@),
            forall|i: int| 0 <= i < n ==> (#[trigger] nodes@[i]).id == ids@[i] && nodes@[i].val == values@[i],
            m <= n,
            rearranged@ == id_order(mix_upto(vals, m as nat), ids@),
        decreases n - m,
    {
        let ghost arr = mix_upto(vals, m as nat);
        proof {
            lemma_mix_perm(vals, m as nat);
            lemma_index_in(arr, n as int, m as int);
        }
        let node_id = nodes[m].id;
        let node_val = nodes[m].val;
        let ghost w = index_in(arr, m as int);
        assert(rearranged@[w] == node_id);
        let i = position(&rearranged, node_id);
        assert(i == w) by {
            if (i as int) < w {
                assert(rearranged@[i as int] == ids@[arr[i as int]]);
                assert(arr[i as int] != m);
            } else if (i as int) > w {
                assert(rearranged@[w] != node_id);
            }
        }
        let len = (n - 1) as i32;
        let x = (i as i32) + node_val;
        proof {
            lemma_rem_fix(x as int, len as int);
        }
        let t = x % len;
        assert(t as int == trunc_rem(x as int, len as int));
        let mut j = ((t + len) % len) as usize;
        if j == 0 && i != 0 {
            j = n - 1;
        }
        assert(j == mix_target(i as int, vals[m as int] as int, n as int));
        let ghost before = rearranged@;
        rearranged.remove(i);
        rearranged.insert(j, node_id);
        proof {
            lemma_target_range(i as int, vals[m as int] as int, n as int);
            let next = mix_upto(vals, (m + 1) as nat);
            assert(next == arr.remove(i as int).insert(j as int, m as int));
            assert(rearranged@ =~= id_order(next, ids@));
        }
        m = m + 1;
    }
    let ghost fin = mix_upto(vals, n as nat);
    proof {
        lemma_mix_perm(vals, n as nat);
    }
    let mut result: Vec<i32> = Vec::new();
    let mut a: usize = 0;
    while a < n
        invariant
            n == values.len(),
            n == ids.len(),
            n == nodes.len(),
            vals == values@,
            distinct_ids(ids@),
            forall|i: int| 0 <= i < n ==> (#[trigger] nodes@[i]).id == ids@[i] && nodes@[i].val == values@[i],
            is_perm(fin, n as int),
            fin == mix_upto(vals, n as nat),
            rearranged@ == id_order(fin, ids@),
            a <= n,
            result@ =~= mixed(vals).take(a as int),
        decreases n - a,
    {
        let id = rearranged[a];
        let ghost kk = fin[a as int];
        assert(ids@[kk] == id);
        let found = position(ids, id);
        assert(found == kk) by {
            if (found as int) < kk {
                assert(ids@[found as int] != ids@[kk]);
            } else if (found as int) > kk {
                assert(ids@[kk] != ids@[found as int]);
            }
        }
        result.push(nodes[found].val);
        a = a + 1;
    }
    result
}

/// The first position of a zero.
pub open spec fn zero_at(r: Seq<i32>) -> int {
    choose|z: int| 0 <= z < r.len() && r[z] == 0 && forall|i: int| 0 <= i < z ==> r[i] != 0
}

/// The sum of the numbers 1000, 2000 and 3000 places after the first zero,
/// going round the list.
pub open spec fn grove_sum(r: Seq<i32>) -> int {
    let z = zero_at(r);
    let n = r.len() as int;
    r[(z + 1000) % n] + r[(z + 2000) % n] + r[(z + 3000) % n]
}

/// The list holds a zero and the grove sum fits in `i32`.
pub open spec fn sum_ok(r: Seq<i32>) -> bool {
    &&& exists|i: int| 0 <= i < r.len() && r[i] == 0
    &&& i32::MIN <= grove_sum(r) <= i32::MAX
    &&& i32::MIN <= r[(zero_at(r) + 1000) % (r.len() as int)] + r[(zero_at(r) + 2000) % (r.len() as int)]
        <= i32::MAX
}

/// The first position of a zero.
fn first_zero(v: &Vec<i32>) -> (r: usize)
    requires
        exists|i: int| 0 <= i < v.len() && v@[i] == 0,
    ensures
        r < v.len(),
        v@[r as int] == 0,
        forall|i: int| 0 <= i < r ==> v@[i] != 0,
{
    let n = v.len();
    let mut k: usize = 0;
    while k < n
        invariant
            n == v.len(),
            k <= n,
            forall|i: int| 0 <= i < k ==> v@[i] != 0,
            exists|i: int| 0 <= i < v.len() && v@[i] == 0,
        decreases n - k,
    {
        if v[k] == 0 {
            return k;
        }
        k = k + 1;
    }
    k
}

/// The grove coordinates of a mixed list.
pub fn grove_coordinates(result: &Vec<i32>) -> (r: i32)
    requires
        sum_ok(result@),
        result.len() < usize::MAX - 3000,
    ensures
        r == grove_sum(result@),
{
    let n = result.len();
    let k = first_zero(result);
    assert(k == zero_at(result@)) by {
        assert(0 <= k < n && result@[k as int] == 0 && forall|i: int| 0 <= i < k ==> result@[i] != 0);
        let z = zero_at(result@);
        if z < k {
            assert(result@[z] != 0);
        } else if z > k {
            assert(result@[k as int] == 0);
        }
    }
    let zero = k;
    result[(zero + 1000) % n] + result[(zero + 2000) % n] + result[(zero + 3000) % n]
}

/// A random id.
///
/// Calls `rand::random::<u64>()`, which draws from the thread-local
/// generator; nothing is promised of the value.
#[verifier::external_body]
fn random_id() -> (r: u64) {
    rand::random()
}

/// Whether no two ids are equal.
pub fn all_distinct(ids: &Vec<u64>) -> (r: bool)
    ensures
        r == distinct_ids(ids@),
{
    let n = ids.len();
    let mut i: usize = 0;
    while i < n
        invariant
            n == ids.len(),
            i <= n,
            forall|a: int, b: int| 0 <= a < i && a < b < n ==> ids@[a] != ids@[b],
        decreases n - i,
    {
        let mut j: usize = i + 1;
        while j < n
            invariant
                n == ids.len(),
                i < n,
                i < j <= n,
                forall|a: int, b: int| 0 <= a < i && a < b < n ==> ids@[a] != ids@[b],
                forall|b: int| i < b < j ==> ids@[i as int] != ids@[b],
            decreases n - j,
        {
            if ids[i] == ids[j] {
                return false;
            }
            j = j + 1;
        }
        i = i + 1;
    }
    true
}

/// Tags each number with a random id, mixes, and returns the grove
/// coordinates; `None` in the unlikely case that two ids drawn are equal.
pub fn process(values: &Vec<i32>) -> (r: Option<i32>)
    requires
        values_ok(values@),
        sum_ok(mixed(values@)),
        values.len() < usize::MAX - 3000,
    ensures
        r matches Some(v) ==> v == grove_sum(mixed(values@)),
{
    let n = values.len();
    let mut ids: Vec<u64> = Vec::new();
    let mut k: usize = 0;
    while k < n
        invariant
            n == values.len(),
            k <= n,
            ids.len() == k,
        decreases n - k,
    {
        ids.push(random_id());
        k = k + 1;
    }
    if !all_distinct(&ids) {
        return None;
    }
    let result = mix(values, &ids);
    proof {
        lemma_mix_perm(values@, values@.len());
    }
    Some(grove_coordinates(&result))
}

/// Reads one `i32` from each non-blank line, trimmed.
pub fn read_input(lines: &Vec<String>) -> (r: Result<Vec<i32>, Error>)
    ensures
        r matches Ok(v) ==> {
            let rows = nonblank(views_of(lines@));
            &&& v.len() == rows.len()
            &&& forall|k: int| 0 <= k < rows.len() ==> parse_int(#[trigger] rows[k], true, i32::MIN as int, i32::MAX as int) == Some(v@[k] as int)
        },
        r matches Err(Error::InvalidNumber(t)) ==> {
            let rows = nonblank(views_of(lines@));
            exists|k: int|
                0 <= k < rows.len() && #[trigger] rows[k] == t@ && parse_int(t@, true, i32::MIN as int, i32::MAX as int) is None
                    && forall|i: int| 0 <= i < k ==> parse_int(#[trigger] rows[i], true, i32::MIN as int, i32::MAX as int) is Some
        },
{
    let rows = nonblank_lines(lines);
    let ghost rs = views_of(rows@);
    let mut v: Vec<i32> = Vec::new();
    let n = rows.len();
    let mut k: usize = 0;
    while k < n
        invariant
            n == rows.len(),
            rs == views_of(rows@),
            rs == nonblank(views_of(lines@)),
            k <= n,
            v.len() == k,
            forall|i: int| 0 <= i < k ==> parse_int(#[trigger] rs[i], true, i32::MIN as int, i32::MAX as int) == Some(v@[i] as int),
        decreases n - k,
    {
        assert(rs[k as int] == rows@[k as int]@);
        match parse_i32(rows[k].as_str()) {
            Some(x) => {
                v.push(x);
            },
            None => {
                return Err(Error::InvalidNumber(crate::text::owned(rows[k].as_str())));
            },
        }
        k = k + 1;
    }
    Ok(v)
}

} // verus!
