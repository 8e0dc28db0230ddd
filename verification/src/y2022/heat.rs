//! Full of hot air: decode SNAFU numbers, base five with digits `=`, `-`,
//! `0`, `1`, `2` worth -2 to 2.
use vstd::prelude::*;
use crate::text::chars_of;

verus! {

/// Errors of this puzzle.
pub enum Error {
    /// A character that is not a SNAFU digit.
    InvalidCharacter(char),
}

/// The value of a SNAFU digit, if `c` is one.
pub open spec fn snafu_digit(c: char) -> Option<int> {
    if c == '2' {
        Some(2)
    } else if c == '1' {
        Some(1)
    } else if c == '0' {
        Some(0)
    } else if c == '-' {
        Some(-1)
    } else if c == '=' {
        Some(-2)
    } else {
        None
    }
}

/// The value of the SNAFU numeral `s`, most significant digit first: each
/// digit times five to the power of the number of digits after it. Where
/// `s` holds a character that is not a digit, the last such character.
pub open spec fn snafu_value(s: Seq<char>) -> Result<int, char>
    decreases s.len(),
{
    if s.len() == 0 {
        Ok(0)
    } else {
        match snafu_value(s.drop_first()) {
            Err(c) => Err(c),
            Ok(v) => match snafu_digit(s[0]) {
                None => Err(s[0]),
                Some(d) => Ok(d * pow5((s.len() - 1) as nat) + v),
            },
        }
    }
}

/// Five to the power `k`.
pub open spec fn pow5(k: nat) -> int
    decreases k,
{
    if k == 0 { 1 } else { 5 * pow5((k - 1) as nat) }
}

proof fn lemma_pow5_mono(a: nat, b: nat)
    requires
        a <= b,
    ensures
        1 <= pow5(a) <= pow5(b),
    decreases b,
{
    if a < b {
        lemma_pow5_mono(a, (b - 1) as nat);
    } else if b > 0 {
        lemma_pow5_mono((b - 1) as nat, (b - 1) as nat);
    }
}

/// A bad character in a suffix makes the whole numeral bad, with the same
/// character.
proof fn lemma_suffix_error(s: Seq<char>, m: int, c: char)
    requires
        0 <= m <= s.len(),
        snafu_value(s.skip(m)) == Err::<int, char>(c),
    ensures
        snafu_value(s) == Err::<int, char>(c),
    decreases m,
{
    if m > 0 {
        assert(s.skip(m - 1).drop_first() =~= s.skip(m));
        lemma_suffix_error(s, m - 1, c);
    } else {
        assert(s.skip(0) =~= s);
    }
}

/// Decodes a SNAFU numeral, reading it from its last digit; the first
/// character met that is not a digit is the error.
pub fn decode(s: &str) -> (r: Result<i64, Error>)
    requires
        s@.len() <= 27,
    ensures
        snafu_value(s@) matches Ok(v) ==> r matches Ok(n) && n == v,
        snafu_value(s@) matches Err(c) ==> r matches Err(Error::InvalidCharacter(d)) && d == c,
{
    let v = chars_of(s);
    let n = v.len();
    let mut place: i64 = 1;
    let mut pos: i64 = 0;
    let mut neg: i64 = 0;
    let mut k: usize = 0;
    proof {
        assert(s@.skip(n as int) =~= Seq::<char>::empty());
        lemma_pow5_mono(26, 26);
        assert(pow5(26) == 1490116119384765625) by {
            reveal_with_fuel(pow5, 27);
        }
    }
    while k < n
        invariant
            v@ == s@,
            n == v@.len(),
            n <= 27,
            k <= n,
            place == pow5(k as nat),
            pow5(26) == 1490116119384765625,
            0 <= pos <= place,
            0 <= neg <= place,
            snafu_value(s@.skip(n - k)) == Ok::<int, char>(pos - neg),
        decreases n - k,
    {
        let c = v[n - 1 - k];
        let ghost suffix = s@.skip(n - k - 1);
        proof {
            lemma_pow5_mono(k as nat, 26);
            assert(suffix.drop_first() =~= s@.skip(n - k));
            assert(suffix[0] == c);
            assert(suffix.len() - 1 == k);
            assert(snafu_value(suffix.drop_first()) == Ok::<int, char>(pos - neg));
        }
        let ghost before = pos - neg;
        match c {
            '2' => {
                pos = pos + 2 * place;
            },
            '1' => {
                pos = pos + place;
            },
            '0' => {},
            '-' => {
                neg = neg + place;
            },
            '=' => {
                neg = neg + 2 * place;
            },
            _ => {
                proof {
                    lemma_suffix_error(s@, n - k - 1, c);
                }
                return Err(Error::InvalidCharacter(c));
            },
        }
        proof {
            let d = snafu_digit(c)->0;
            assert(pos - neg == d * pow5(k as nat) + before);
            assert(snafu_value(suffix) == Ok::<int, char>(pos - neg));
        }
        place = place * 5;
        k = k + 1;
    }
    proof {
        assert(s@.skip(0) =~= s@);
    }
    Ok(pos - neg)
}

} // verus!
