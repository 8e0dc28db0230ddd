//! Rucksack reorganisation: each line is split in two halves, and the items
//! found in both halves are scored by priority.
use vstd::prelude::*;
use crate::text::chars_of;
use crate::common::string_views;

verus! {

/// Errors of this puzzle.
pub enum Error {
    /// The input was malformed; the text names the offending part.
    InvalidArgument(String),
}

/// `c` is an ASCII letter.
pub open spec fn is_letter(c: char) -> bool {
    ('a' <= c && c <= 'z') || ('A' <= c && c <= 'Z')
}

/// The priority of a letter: 1 to 26 for `a` to `z`, 27 to 52 for `A` to `Z`.
pub open spec fn priority(c: char) -> int {
    if 'A' <= c && c <= 'Z' {
        (c as int) - ('A' as int) + 27
    } else {
        (c as int) - ('a' as int) + 1
    }
}

/// The priority of an item.
pub fn score(c: char) -> (r: u32)
    requires
        is_letter(c),
    ensures
        r == priority(c),
        1 <= r <= 52,
{
    if 'A' <= c && c <= 'Z' {
        ((c as u32) - ('A' as u32)) + 27
    } else {
        ((c as u32) - ('a' as u32)) + 1
    }
}

/// The sum of the priorities of the distinct characters among the first `i`
/// of `first` that also occur in `second`: each is counted at its first
/// occurrence.
pub open spec fn shared_priority(first: Seq<char>, second: Seq<char>, i: int) -> int
    decreases i,
{
    if i <= 0 {
        0
    } else {
        let c = first[i - 1];
        shared_priority(first, second, i - 1) + if second.contains(c) && !first.take(i - 1).contains(c) {
            priority(c)
        } else {
            0
        }
    }
}

/// Every character that occurs in both halves is a letter.
pub open spec fn shared_are_letters(first: Seq<char>, second: Seq<char>) -> bool {
    forall|c: char| first.contains(c) && second.contains(c) ==> is_letter(c)
}

/// The first half of a line (the shorter one when its length is odd).
pub open spec fn first_half(s: Seq<char>) -> Seq<char> {
    s.take((s.len() / 2) as int)
}

/// The second half of a line.
pub open spec fn second_half(s: Seq<char>) -> Seq<char> {
    s.skip((s.len() / 2) as int)
}

/// The sum of the priorities of the items that occur in both halves of
/// `line`, each item counted once.
pub fn line_priority(line: &str) -> (r: u32)
    requires
        line.is_ascii(),
        52 * (line@.len() / 2) <= u32::MAX,
        shared_are_letters(first_half(line@), second_half(line@)),
    ensures
        r == shared_priority(first_half(line@), second_half(line@), first_half(line@).len() as int),
{
    let v = chars_of(line);
    let n = v.len();
    let h = n / 2;
    let ghost first = first_half(line@);
    let ghost second = second_half(line@);
    let mut sum: u32 = 0;
    for i in 0..h
        invariant
            v@ == line@,
            n == v@.len(),
            h == n / 2,
            first == v@.take(h as int),
            second == v@.skip(h as int),
            shared_are_letters(first, second),
            sum == shared_priority(first, second, i as int),
            sum <= 52 * i,
            52 * h <= u32::MAX,
    {
        let c = v[i];
        proof {
            assert(first[i as int] == c);
        }
        // Is c in the second half?
        let mut in_second = false;
        let mut j = h;
        while j < n
            invariant
                h <= j <= n,
                n == v@.len(),
                second == v@.skip(h as int),
                in_second == exists|k: int| h <= k < j && v@[k] == c,
            decreases n - j,
        {
            if v[j] == c {
                in_second = true;
            }
            j = j + 1;
        }
        // Was c seen earlier in the first half?
        let mut seen = false;
        let mut k: usize = 0;
        while k < i
            invariant
                k <= i,
                i < h,
                h <= n,
                n == v@.len(),
                seen == exists|m: int| 0 <= m < k && v@[m] == c,
            decreases i - k,
        {
            if v[k] == c {
                seen = true;
            }
            k = k + 1;
        }
        proof {
            if in_second {
                let w = choose|w: int| h <= w < n && v@[w] == c;
                assert(second[w - h] == c);
            } else {
                if second.contains(c) {
                    let w = choose|w: int| 0 <= w < second.len() && second[w] == c;
                    assert(v@[w + h] == c);
                }
            }
            if seen {
                let w = choose|w: int| 0 <= w < i && v@[w] == c;
                assert(first.take(i as int)[w] == c);
            } else {
                if first.take(i as int).contains(c) {
                    let w = choose|w: int| 0 <= w < i && first.take(i as int)[w] == c;
                    assert(v@[w] == c);
                }
            }
        }
        if in_second && !seen {
            proof {
                assert(first.contains(c));
            }
            sum = sum + score(c);
        }
    }
    sum
}

/// The priority of one line, as `line_priority` computes it.
pub open spec fn line_priority_spec(line: Seq<char>) -> int {
    shared_priority(first_half(line), second_half(line), first_half(line).len() as int)
}

/// The sum of the priorities of the first `n` lines.
pub open spec fn total_spec(lines: Seq<Seq<char>>, n: int) -> int
    decreases n,
{
    if n <= 0 { 0 } else { total_spec(lines, n - 1) + line_priority_spec(lines[n - 1]) }
}

/// Every line is one that `line_priority` accepts.
pub open spec fn all_lines_ok(lines: Seq<Seq<char>>) -> bool {
    forall|k: int| 0 <= k < lines.len() ==> {
        let l = #[trigger] lines[k];
        &&& vstd::utf8::is_ascii_chars(l)
        &&& 52 * (l.len() / 2) <= u32::MAX
        &&& shared_are_letters(first_half(l), second_half(l))
    }
}

/// The sum of the line priorities of all lines.
pub fn total_priority(lines: &Vec<String>) -> (r: u32)
    requires
        all_lines_ok(string_views(lines@)),
        forall|k: int| 0 <= k <= lines@.len() ==> #[trigger] total_spec(string_views(lines@), k) <= u32::MAX,
    ensures
        r == total_spec(string_views(lines@), lines@.len() as int),
{
    let ghost views = string_views(lines@);
    let mut sum: u32 = 0;
    let n = lines.len();
    for i in 0..n
        invariant
            n == lines@.len(),
            views == string_views(lines@),
            all_lines_ok(views),
            forall|k: int| 0 <= k <= lines@.len() ==> #[trigger] total_spec(views, k) <= u32::MAX,
            sum == total_spec(views, i as int),
    {
        let line = lines[i].as_str();
        proof {
            assert(views[i as int] == line@);
            let l = views[i as int];
            assert(vstd::utf8::is_ascii_chars(l));
            assert(total_spec(views, i + 1) <= u32::MAX);
        }
        let p = line_priority(line);
        sum = sum + p;
    }
    sum
}

} // verus!
