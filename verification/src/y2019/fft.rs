//! Flawed frequency transmission: each phase replaces every digit by the
//! last digit of a signed sum of the signal, weighted by the repeating
//! pattern 0, 1, 0, -1 with each entry stretched to the digit's position.
use vstd::prelude::*;
use vstd::arithmetic::div_mod::lemma_fundamental_div_mod_converse;

verus! {

/// The weight of input `k` in output `i`: the pattern 0, 1, 0, -1 with
/// each entry repeated `i + 1` times, the very first entry skipped.
pub open spec fn coef(i: int, k: int) -> int {
    let p = ((k + 1) / (i + 1)) % 4;
    if p == 1 {
        1
    } else if p == 3 {
        -1
    } else {
        0
    }
}

/// The weighted sum of the first `j` inputs for output `i`.
pub open spec fn fft_sum(input: Seq<i32>, i: int, j: int) -> int
    decreases j,
{
    if j <= 0 {
        0
    } else {
        fft_sum(input, i, j - 1) + coef(i, j - 1) * input[j - 1]
    }
}

/// The last digit of a number's magnitude.
pub open spec fn last_digit(x: int) -> int {
    (if x < 0 {
        -x
    } else {
        x
    }) % 10
}

/// One phase over the whole signal.
pub open spec fn apply_phase(s: Seq<i32>) -> Seq<i32> {
    Seq::new(s.len(), |i: int| last_digit(fft_sum(s, i, s.len() as int)) as i32)
}

/// The signal after `r` phases.
pub open spec fn phases(s: Seq<i32>, r: nat) -> Seq<i32>
    decreases r,
{
    if r == 0 {
        s
    } else {
        apply_phase(phases(s, (r - 1) as nat))
    }
}

/// Every value is between -255 and 255.
pub open spec fn small(s: Seq<i32>) -> bool {
    forall|k: int| 0 <= k < s.len() ==> -255 <= #[trigger] s[k] <= 255
}

/// Inside a run of `+1` or `-1` weights: the run that starts at
/// `i + 2 m (i + 1)` has weight `1` for even `m`, `-1` for odd.
proof fn lemma_coef_run(i: int, m: int, t: int)
    requires
        i >= 0,
        m >= 0,
        0 <= t <= i,
    ensures
        coef(i, i + 2 * m * (i + 1) + t) == if m % 2 == 0 { 1int } else { -1int },
{
    let k = i + 2 * m * (i + 1) + t;
    assert(k + 1 == (2 * m + 1) * (i + 1) + t) by (nonlinear_arith)
        requires
            k == i + 2 * m * (i + 1) + t,
    ;
    lemma_fundamental_div_mod_converse(k + 1, i + 1, 2 * m + 1, t);
    lemma_fundamental_div_mod_converse(2 * m + 1, 4, m / 2, if m % 2 == 0 { 1int } else { 3int });
}

/// Between two runs the weight is zero.
proof fn lemma_coef_gap(i: int, m: int, t: int)
    requires
        i >= 0,
        m >= 0,
        0 <= t <= i,
    ensures
        coef(i, i + 2 * m * (i + 1) + (i + 1) + t) == 0,
{
    let k = i + 2 * m * (i + 1) + (i + 1) + t;
    assert(k + 1 == (2 * m + 2) * (i + 1) + t) by (nonlinear_arith)
        requires
            k == i + 2 * m * (i + 1) + (i + 1) + t,
    ;
    lemma_fundamental_div_mod_converse(k + 1, i + 1, 2 * m + 2, t);
    lemma_fundamental_div_mod_converse(2 * m + 2, 4, (m + 1) / 2, if m % 2 == 0 { 2int } else { 0int });
}

/// Over a gap between runs the sum does not change.
proof fn lemma_gap_sum(input: Seq<i32>, i: int, m: int, end: int, stop: int)
    requires
        i >= 0,
        m >= 0,
        end == i + 2 * m * (i + 1) + (i + 1),
        end <= stop <= end + i + 1,
    ensures
        fft_sum(input, i, stop) == fft_sum(input, i, end),
    decreases stop - end,
{
    if stop > end {
        lemma_gap_sum(input, i, m, end, stop - 1);
        lemma_coef_gap(i, m, stop - 1 - end);
    }
}

/// Before the first run every weight is zero.
proof fn lemma_sum_head(input: Seq<i32>, i: int, j: int)
    requires
        0 <= j <= i,
    ensures
        fft_sum(input, i, j) == 0,
    decreases j,
{
    if j > 0 {
        lemma_sum_head(input, i, j - 1);
        lemma_fundamental_div_mod_converse(j, i + 1, 0, j);
    }
}

/// Writes one phase of the first `n` inputs into the first `n` outputs.
pub fn phase(input: &Vec<i32>, output: &mut Vec<i32>, n: usize)
    requires
        n <= input@.len(),
        n <= old(output)@.len(),
        n <= 8_000_000,
        small(input@),
    ensures
        final(output)@.len() == old(output)@.len(),
        forall|i: int| 0 <= i < n ==> #[trigger] final(output)@[i] == last_digit(fft_sum(input@, i, n as int)),
        forall|i: int| n <= i < final(output)@.len() ==> #[trigger] final(output)@[i] == old(output)@[i],
{
    let ghost len = output@.len();
    let mut i: usize = 0;
    while i < n
        invariant
            n <= input@.len(),
            n <= 8_000_000,
            small(input@),
            output@.len() == len,
            len == old(output)@.len(),
            n <= len,
            i <= n,
            forall|a: int| 0 <= a < i ==> #[trigger] output@[a] == last_digit(fft_sum(input@, a, n as int)),
            forall|a: int| n <= a < len ==> #[trigger] output@[a] == old(output)@[a],
        decreases n - i,
    {
        let mut acc: i32 = 0;
        let mut s: i32 = 1;
        let mut j: usize = i;
        let ghost mut m: int = 0;
        let ghost mut b: int = 0;
        proof {
            lemma_sum_head(input@, i as int, i as int);
        }
        while j < n
            invariant
                n <= input@.len(),
                n <= 8_000_000,
                small(input@),
                i < n,
                m >= 0,
                b == m * (i + 1),
                j >= n || j == i + 2 * b,
                j <= n + i + 1,
                s == if m % 2 == 0 { 1i32 } else { -1i32 },
                acc == fft_sum(input@, i as int, if j < n { j as int } else { n as int }),
                -255 * (if j < n { j as int } else { n as int }) <= acc <= 255 * (if j < n { j as int } else { n as int }),
            decreases n + i + 1 - j,
        {
            assert(2 * m * (i + 1) == 2 * b) by (nonlinear_arith)
                requires
                    b == m * (i + 1),
            ;
            let end = if j + i + 1 > n { n } else { j + i + 1 };
            let mut k = j;
            while k < end
                invariant
                    n <= input@.len(),
                    small(input@),
                    i < n,
                    m >= 0,
                    b == m * (i + 1),
                    j == i + 2 * b,
                    2 * m * (i + 1) == 2 * b,
                    j <= k <= end,
                    end <= n,
                    end <= j + i + 1,
                    n <= 8_000_000,
                    s == if m % 2 == 0 { 1i32 } else { -1i32 },
                    acc == fft_sum(input@, i as int, k as int),
                    -255 * k <= acc <= 255 * k,
                decreases end - k,
            {
                proof {
                    lemma_coef_run(i as int, m, k - j);
                }
                assert(-255 <= input@[k as int] <= 255);
                acc = acc + s * input[k];
                k = k + 1;
            }
            let ghost old_j = j;
            j = end + i + 1;
            proof {
                if end == old_j + i + 1 {
                    let stop = if j < n { j as int } else { n as int };
                    lemma_gap_sum(input@, i as int, m, end as int, stop);
                }
                assert((m + 1) * (i + 1) == m * (i + 1) + (i + 1)) by (nonlinear_arith);
                b = b + i + 1;
                m = m + 1;
            }
            s = -s;
        }
        let mag = if acc < 0 { -acc } else { acc };
        output.set(i, mag % 10);
        i = i + 1;
    }
}

/// The signal the input bytes give, repeated `times` times: each byte
/// less the code of `0`.
pub fn expand_input(bytes: &Vec<u8>, times: usize) -> (r: Vec<i32>)
    requires
        bytes@.len() * times <= usize::MAX,
    ensures
        r@.len() == bytes@.len() * times,
        forall|i: int| 0 <= i < r@.len() ==> #[trigger] r@[i] == bytes@[i % (bytes@.len() as int)] - 48,
        small(r@),
{
    let m = bytes.len();
    let n = m * times;
    let mut v: Vec<i32> = Vec::new();
    let mut i: usize = 0;
    while i < n
        invariant
            m == bytes@.len(),
            n == m * times,
            i <= n,
            v@.len() == i,
            forall|a: int| 0 <= a < i ==> #[trigger] v@[a] == bytes@[a % (m as int)] - 48,
            small(v@),
        decreases n - i,
    {
        assert(m > 0) by {
            if m == 0 {
                assert(n == 0) by (nonlinear_arith)
                    requires
                        n == m * times,
                        m == 0,
                ;
            }
        }
        let x = (bytes[i % m] as i32) - 48;
        v.push(x);
        i = i + 1;
    }
    v
}

/// Runs `2 * rounds` phases over the whole signal, swapping two buffers.
pub fn run_phases(signal: Vec<i32>, rounds: usize) -> (r: Vec<i32>)
    requires
        signal@.len() <= 8_000_000,
        small(signal@),
    ensures
        r@ == phases(signal@, (2 * rounds) as nat),
{
    let n = signal.len();
    let mut buf1 = signal;
    let mut buf2: Vec<i32> = Vec::new();
    let mut k: usize = 0;
    while k < n
        invariant
            buf2@.len() == k,
            k <= n,
            forall|a: int| 0 <= a < k ==> #[trigger] buf2@[a] == 0,
        decreases n - k,
    {
        buf2.push(0);
        k = k + 1;
    }
    let mut round: usize = 0;
    while round < rounds
        invariant
            n <= 8_000_000,
            buf1@.len() == n,
            buf2@.len() == n,
            round <= rounds,
            buf1@ == phases(signal@, (2 * round) as nat),
            small(buf1@),
        decreases rounds - round,
    {
        phase(&buf1, &mut buf2, n);
        assert(buf2@ =~= apply_phase(buf1@));
        proof {
            lemma_phase_small(buf1@);
        }
        phase(&buf2, &mut buf1, n);
        assert(buf1@ =~= apply_phase(buf2@));
        proof {
            lemma_phase_small(buf2@);
            assert(phases(signal@, (2 * round + 2) as nat) == apply_phase(phases(signal@, (2 * round + 1) as nat)));
        }
        round = round + 1;
    }
    buf1
}

proof fn lemma_phase_small(s: Seq<i32>)
    ensures
        small(apply_phase(s)),
{
    assert forall|k: int| 0 <= k < apply_phase(s).len() implies -255 <= #[trigger] apply_phase(s)[k] <= 255 by {
        let x = fft_sum(s, k, s.len() as int);
        let a = if x < 0 { -x } else { x };
        assert(0 <= a % 10 < 10);
    }
}

/// The digits of a signal as text; values outside 0 to 9 give the
/// character of that offset from `0`, wrapped to a byte.
pub fn digits_text(s: &Vec<i32>) -> (r: Vec<char>)
    requires
        forall|k: int| 0 <= k < s@.len() ==> 0 <= #[trigger] s@[k] <= 9,
    ensures
        r@.len() == s@.len(),
        forall|k: int| 0 <= k < s@.len() ==> #[trigger] r@[k] as int == s@[k] + 48,
{
    let mut out: Vec<char> = Vec::new();
    let mut k: usize = 0;
    while k < s.len()
        invariant
            k <= s@.len(),
            out@.len() == k,
            forall|a: int| 0 <= a < s@.len() ==> 0 <= #[trigger] s@[a] <= 9,
            forall|a: int| 0 <= a < k ==> #[trigger] out@[a] as int == s@[a] + 48,
        decreases s@.len() - k,
    {
        let d = s[k] as u8;
        out.push((d + 48) as char);
        k = k + 1;
    }
    out
}

} // verus!
