//! Character-level specifications and helpers shared by the parsers.
use vstd::prelude::*;

verus! {

/// `c` is one of the ASCII digits `0` to `9`.
pub open spec fn is_digit(c: char) -> bool {
    '0' <= c && c <= '9'
}

/// The value of the ASCII digit `c`.
pub open spec fn digit_value(c: char) -> int {
    (c as int) - ('0' as int)
}

/// Every character of `s` is an ASCII digit.
pub open spec fn all_digits(s: Seq<char>) -> bool {
    forall|i: int| 0 <= i < s.len() ==> is_digit(#[trigger] s[i])
}

/// The number that the digit string `s` spells in base ten.
pub open spec fn digits_value(s: Seq<char>) -> int
    decreases s.len(),
{
    if s.len() == 0 {
        0
    } else {
        digits_value(s.drop_last()) * 10 + digit_value(s.last())
    }
}

/// The number that `s` spells in decimal: an optional sign (a minus only when
/// `signed`), then one or more ASCII digits and nothing else.
pub open spec fn decimal_value(s: Seq<char>, signed: bool) -> Option<int> {
    if s.len() > 0 && s[0] == '+' {
        let d = s.drop_first();
        if d.len() > 0 && all_digits(d) { Some(digits_value(d)) } else { None }
    } else if signed && s.len() > 0 && s[0] == '-' {
        let d = s.drop_first();
        if d.len() > 0 && all_digits(d) { Some(-digits_value(d)) } else { None }
    } else if s.len() > 0 && all_digits(s) {
        Some(digits_value(s))
    } else {
        None
    }
}

/// What parsing `s` as an integer between `lo` and `hi` gives.
pub open spec fn parse_int(s: Seq<char>, signed: bool, lo: int, hi: int) -> Option<int> {
    match decimal_value(s, signed) {
        Some(v) => if lo <= v <= hi { Some(v) } else { None },
        None => None,
    }
}

/// Parses a decimal `i64`.
///
/// Calls `str::parse::<i64>`; its documentation says that it accepts an
/// optional `+` or `-` followed by decimal digits, and fails on anything
/// else and on values out of range. The contract states exactly that.
#[verifier::external_body]
pub fn parse_i64(s: &str) -> (r: Option<i64>)
    ensures
        r matches Some(n) ==> parse_int(s@, true, i64::MIN as int, i64::MAX as int) == Some(n as int),
        r is None ==> parse_int(s@, true, i64::MIN as int, i64::MAX as int) is None,
{
    s.parse::<i64>().ok()
}

/// Parses a decimal `i32` through `str::parse::<i32>`, with the same
/// documented grammar as [`parse_i64`].
#[verifier::external_body]
pub fn parse_i32(s: &str) -> (r: Option<i32>)
    ensures
        r matches Some(n) ==> parse_int(s@, true, i32::MIN as int, i32::MAX as int) == Some(n as int),
        r is None ==> parse_int(s@, true, i32::MIN as int, i32::MAX as int) is None,
{
    s.parse::<i32>().ok()
}

/// Parses a decimal `u32` through `str::parse::<u32>`: an optional `+` and
/// digits (no minus sign for unsigned types), within range.
#[verifier::external_body]
pub fn parse_u32(s: &str) -> (r: Option<u32>)
    ensures
        r matches Some(n) ==> parse_int(s@, false, 0, u32::MAX as int) == Some(n as int),
        r is None ==> parse_int(s@, false, 0, u32::MAX as int) is None,
{
    s.parse::<u32>().ok()
}

/// Parses a decimal `usize` through `str::parse::<usize>`, with the grammar
/// of [`parse_u32`].
#[verifier::external_body]
pub fn parse_usize(s: &str) -> (r: Option<usize>)
    ensures
        r matches Some(n) ==> parse_int(s@, false, 0, usize::MAX as int) == Some(n as int),
        r is None ==> parse_int(s@, false, 0, usize::MAX as int) is None,
{
    s.parse::<usize>().ok()
}

/// `c` has the Unicode `White_Space` property, the set that
/// `char::is_whitespace` tests.
pub open spec fn is_whitespace(c: char) -> bool {
    ||| '\u{9}' <= c <= '\u{d}'
    ||| c == ' ' || c == '\u{85}' || c == '\u{a0}' || c == '\u{1680}'
    ||| '\u{2000}' <= c <= '\u{200a}'
    ||| c == '\u{2028}' || c == '\u{2029}' || c == '\u{202f}' || c == '\u{205f}'
    ||| c == '\u{3000}'
}

/// The number of leading whitespace characters of `s`.
pub open spec fn leading_ws(s: Seq<char>) -> nat
    decreases s.len(),
{
    if s.len() > 0 && is_whitespace(s[0]) { 1 + leading_ws(s.drop_first()) } else { 0 }
}

/// The number of trailing whitespace characters of `s`.
pub open spec fn trailing_ws(s: Seq<char>) -> nat
    decreases s.len(),
{
    if s.len() > 0 && is_whitespace(s.last()) { 1 + trailing_ws(s.drop_last()) } else { 0 }
}

/// `s` without its leading and trailing whitespace.
pub open spec fn trimmed(s: Seq<char>) -> Seq<char> {
    let t = s.skip(leading_ws(s) as int);
    t.take(t.len() - trailing_ws(t))
}

/// Removes leading and trailing whitespace.
///
/// Calls `str::trim`, which its documentation describes as removing the
/// leading and trailing characters with the `White_Space` property.
#[verifier::external_body]
pub fn trim(s: &str) -> (r: &str)
    ensures
        r@ == trimmed(s@),
{
    s.trim()
}

/// `s` without its trailing whitespace.
pub open spec fn trimmed_end(s: Seq<char>) -> Seq<char> {
    s.take(s.len() - trailing_ws(s))
}

/// Removes trailing whitespace.
///
/// Calls `str::trim_end`, which its documentation describes as removing the
/// trailing characters with the `White_Space` property.
#[verifier::external_body]
pub fn trim_end(s: &str) -> (r: &str)
    ensures
        r@ == trimmed_end(s@),
{
    s.trim_end()
}

/// Converts a string slice to an owned `String`.
pub fn owned(s: &str) -> (r: String)
    ensures
        r@ == s@,
{
    s.to_owned()
}

/// `k` is the position of the first `c` in `s`.
pub open spec fn is_first(s: Seq<char>, c: char, k: int) -> bool {
    0 <= k < s.len() && s[k] == c && forall|j: int| 0 <= j < k ==> #[trigger] s[j] != c
}

/// The position of the first `c` in `s`, if there is one.
pub open spec fn find_spec(s: Seq<char>, c: char) -> Option<int> {
    if exists|k: int| is_first(s, c, k) {
        Some(choose|k: int| is_first(s, c, k))
    } else {
        None
    }
}

/// The position `find_spec` gives is that of a `c`, with none before it.
pub proof fn lemma_find_in_range(s: Seq<char>, c: char)
    ensures
        find_spec(s, c) matches Some(i) ==> is_first(s, c, i),
{
}

/// Positions that satisfy `is_first` are unique.
pub proof fn lemma_first_unique(s: Seq<char>, c: char, k: int)
    requires
        is_first(s, c, k),
    ensures
        find_spec(s, c) == Some(k),
{
    let k2 = choose|k: int| is_first(s, c, k);
    assert(is_first(s, c, k2));
    if k2 < k {
        assert(s[k2] != c);
    }
    if k < k2 {
        assert(s[k] != c);
    }
}

/// The position (in characters) of the first `c` in `s`.
pub fn find_char(s: &str, c: char) -> (r: Option<usize>)
    ensures
        r matches Some(i) ==> find_spec(s@, c) == Some(i as int),
        r is None ==> find_spec(s@, c) is None,
{
    let v = chars_of(s);
    let n = v.len();
    let mut i: usize = 0;
    while i < n
        invariant
            n == v@.len(),
            v@ == s@,
            i <= n,
            forall|j: int| 0 <= j < i ==> #[trigger] v@[j] != c,
        decreases n - i,
    {
        if v[i] == c {
            proof {
                lemma_first_unique(s@, c, i as int);
            }
            return Some(i);
        }
        i = i + 1;
    }
    proof {
        if exists|k: int| is_first(s@, c, k) {
            let k = choose|k: int| is_first(s@, c, k);
            assert(v@[k] != c);
        }
    }
    None
}

/// The first bound of an inclusive range.
///
/// Calls `RangeInclusive::start`, which returns the lower bound the range
/// was built with.
#[verifier::external_body]
pub fn range_start<T: Copy>(r: &core::ops::RangeInclusive<T>) -> (x: T)
    ensures
        x == r@.start,
{
    *r.start()
}

/// The last bound of an inclusive range.
///
/// Calls `RangeInclusive::end`, which returns the upper bound the range was
/// built with.
#[verifier::external_body]
pub fn range_end<T: Copy>(r: &core::ops::RangeInclusive<T>) -> (x: T)
    ensures
        x == r@.end,
{
    *r.end()
}

/// `s` without the prefix `p`, when it starts with it.
///
/// Calls `str::strip_prefix`, which returns the rest of `s` after `p` when
/// `s` starts with `p`, and `None` otherwise.
#[verifier::external_body]
pub fn strip_prefix<'a>(s: &'a str, p: &str) -> (r: Option<&'a str>)
    ensures
        r is Some <==> (p@.len() <= s@.len() && s@.take(p@.len() as int) == p@),
        r matches Some(t) ==> t@ == s@.skip(p@.len() as int),
{
    s.strip_prefix(p)
}

/// Removes and returns the last character.
///
/// Calls `String::pop`, which removes the last character and returns it, or
/// returns `None` on an empty string.
#[verifier::external_body]
pub fn string_pop(s: &mut String) -> (r: Option<char>)
    ensures
        old(s)@.len() > 0 ==> r == Some(old(s)@.last()) && final(s)@ == old(s)@.drop_last(),
        old(s)@.len() == 0 ==> r is None && final(s)@ == old(s)@,
{
    s.pop()
}

/// Appends a character.
///
/// Calls `String::push`, which appends `c` at the end.
#[verifier::external_body]
pub fn string_push(s: &mut String, c: char)
    ensures
        final(s)@ == old(s)@.push(c),
{
    s.push(c)
}

/// The decimal digits of the natural number `n`, without leading zeros
/// (`"0"` for zero).
pub open spec fn nat_digits(n: nat) -> Seq<char>
    decreases n,
{
    if n < 10 {
        seq![((n + 48) as u32) as char]
    } else {
        nat_digits(n / 10).push((((n % 10) + 48) as u32) as char)
    }
}

/// The decimal digits of `n` are digits, at least one, and spell `n`.
pub proof fn lemma_nat_digits(n: nat)
    ensures
        nat_digits(n).len() > 0,
        all_digits(nat_digits(n)),
        digits_value(nat_digits(n)) == n,
    decreases n,
{
    if n >= 10 {
        lemma_nat_digits(n / 10);
        let s = nat_digits(n);
        assert(s.drop_last() =~= nat_digits(n / 10));
        let c = (((n % 10) + 48) as u32) as char;
        assert(s.last() == c);
        assert(c as int == (n % 10) + 48);
        assert(digit_value(c) == n % 10);
        assert((n / 10) * 10 + n % 10 == n) by (nonlinear_arith);
        assert(digits_value(s) == digits_value(s.drop_last()) * 10 + digit_value(s.last()));
        assert forall|i: int| 0 <= i < s.len() implies is_digit(#[trigger] s[i]) by {
            if i < s.len() - 1 {
                assert(s[i] == nat_digits(n / 10)[i]);
            }
        }
    } else {
        assert(nat_digits(n).drop_last() =~= Seq::<char>::empty());
        let c = ((n + 48) as u32) as char;
        assert(c as int == n + 48);
        let s = nat_digits(n);
        assert(s.last() == c);
        assert(digits_value(s) == digits_value(s.drop_last()) * 10 + digit_value(s.last()));
        assert(digits_value(s.drop_last()) == 0);
    }
}

/// The decimal representation of `n`: a minus sign for negative numbers,
/// then the digits of its magnitude.
pub open spec fn decimal_string(n: int) -> Seq<char> {
    if n < 0 { seq!['-'] + nat_digits((-n) as nat) } else { nat_digits(n as nat) }
}

/// Formats an `i64` in decimal.
///
/// Calls `i64::to_string`, whose `Display` output is the minus sign for
/// negative values followed by the decimal digits without leading zeros.
#[verifier::external_body]
pub fn i64_to_string(n: i64) -> (r: String)
    ensures
        r@ == decimal_string(n as int),
{
    n.to_string()
}

/// A one-character string.
///
/// Calls `char::to_string`, which returns the string made of `c` alone.
#[verifier::external_body]
pub fn char_to_string(c: char) -> (r: String)
    ensures
        r@ == seq![c],
{
    c.to_string()
}

/// Whether two strings have the same characters.
pub fn str_equal(a: &str, b: &str) -> (r: bool)
    ensures
        r == (a@ == b@),
{
    let n = a.unicode_len();
    if n != b.unicode_len() {
        return false;
    }
    let va = chars_of(a);
    let vb = chars_of(b);
    for i in 0..n
        invariant
            n == va@.len(),
            n == vb@.len(),
            va@ == a@,
            vb@ == b@,
            forall|j: int| 0 <= j < i ==> va@[j] == vb@[j],
    {
        if va[i] != vb[i] {
            return false;
        }
    }
    proof {
        assert(va@ =~= vb@);
    }
    true
}

/// The characters of `s`, in order.
pub fn chars_of(s: &str) -> (v: Vec<char>)
    ensures
        v@ == s@,
{
    let n = s.unicode_len();
    let mut v: Vec<char> = Vec::new();
    for i in 0..n
        invariant
            n == s@.len(),
            v@ == s@.subrange(0, i as int),
    {
        v.push(s.get_char(i));
    }
    v
}

/// The lines that hold more than whitespace, each trimmed, in order.
pub open spec fn nonblank(lines: Seq<Seq<char>>) -> Seq<Seq<char>>
    decreases lines.len(),
{
    if lines.len() == 0 {
        Seq::empty()
    } else {
        let rest = nonblank(lines.drop_last());
        let t = trimmed(lines.last());
        if t.len() == 0 {
            rest
        } else {
            rest.push(t)
        }
    }
}

/// The contents of each string, in order.
pub open spec fn views_of(v: Seq<String>) -> Seq<Seq<char>> {
    v.map_values(|s: String| s@)
}

/// Trims every line and drops those left empty.
pub fn nonblank_lines(lines: &Vec<String>) -> (r: Vec<String>)
    ensures
        views_of(r@) == nonblank(views_of(lines@)),
{
    let ghost all = views_of(lines@);
    let mut r: Vec<String> = Vec::new();
    let n = lines.len();
    let mut k: usize = 0;
    while k < n
        invariant
            n == lines.len(),
            all == views_of(lines@),
            k <= n,
            views_of(r@) == nonblank(all.take(k as int)),
        decreases n - k,
    {
        let t = trim(lines[k].as_str());
        assert(all.take(k + 1).drop_last() =~= all.take(k as int));
        assert(all.take(k + 1).last() == lines@[k as int]@);
        if t.unicode_len() > 0 {
            let ghost before = r@;
            r.push(owned(t));
            assert(views_of(r@) =~= views_of(before).push(t@));
        }
        k = k + 1;
    }
    assert(all.take(n as int) =~= all);
    r
}

proof fn lemma_leading_ws_len(s: Seq<char>)
    ensures
        leading_ws(s) <= s.len(),
    decreases s.len(),
{
    if s.len() > 0 && is_whitespace(s[0]) {
        lemma_leading_ws_len(s.drop_first());
    }
}

proof fn lemma_trailing_ws_len(s: Seq<char>)
    ensures
        trailing_ws(s) <= s.len(),
    decreases s.len(),
{
    if s.len() > 0 && is_whitespace(s.last()) {
        lemma_trailing_ws_len(s.drop_last());
    }
}

/// Trimming never lengthens a string.
pub proof fn lemma_trimmed_len(s: Seq<char>)
    ensures
        trimmed(s).len() <= s.len(),
{
    lemma_leading_ws_len(s);
    lemma_trailing_ws_len(s.skip(leading_ws(s) as int));
}

/// `p` occurs in `s` at position `i`.
pub open spec fn occurs_at(s: Seq<char>, p: Seq<char>, i: int) -> bool {
    0 <= i && i + p.len() <= s.len() && s.subrange(i, i + p.len()) == p
}

/// The position of the first occurrence of the non-empty `p` in `s`.
pub open spec fn find_str_spec(s: Seq<char>, p: Seq<char>) -> Option<int> {
    if exists|i: int| occurs_at(s, p, i) {
        Some(choose|i: int| occurs_at(s, p, i) && forall|j: int| 0 <= j < i ==> !#[trigger] occurs_at(s, p, j))
    } else {
        None
    }
}

/// `s` cut at every occurrence of the non-empty `sep`, left to right.
#[verifier::opaque]
pub open spec fn split_spec(s: Seq<char>, sep: Seq<char>) -> Seq<Seq<char>>
    decreases s.len(),
{
    if sep.len() == 0 {
        seq![s]
    } else {
        match find_str_spec(s, sep) {
            None => seq![s],
            Some(i) => if 0 <= i && i + sep.len() <= s.len() {
                seq![s.take(i)] + split_spec(s.skip(i + sep.len()), sep)
            } else {
                seq![s]
            },
        }
    }
}

/// The first occurrence found is an occurrence, and none comes before it.
pub proof fn lemma_find_str(s: Seq<char>, p: Seq<char>)
    ensures
        find_str_spec(s, p) matches Some(i) ==> occurs_at(s, p, i) && forall|j: int|
            0 <= j < i ==> !#[trigger] occurs_at(s, p, j),
{
    if exists|i: int| occurs_at(s, p, i) {
        let w = choose|i: int| occurs_at(s, p, i);
        lemma_least_occurrence(s, p, w);
    }
}

proof fn lemma_least_occurrence(s: Seq<char>, p: Seq<char>, w: int)
    requires
        occurs_at(s, p, w),
    ensures
        exists|i: int| occurs_at(s, p, i) && forall|j: int| 0 <= j < i ==> !#[trigger] occurs_at(s, p, j),
    decreases w,
{
    if exists|j: int| 0 <= j < w && occurs_at(s, p, j) {
        let j = choose|j: int| 0 <= j < w && occurs_at(s, p, j);
        lemma_least_occurrence(s, p, j);
    } else {
        assert(forall|j: int| 0 <= j < w ==> !#[trigger] occurs_at(s, p, j));
    }
}

proof fn lemma_first_occurrence(s: Seq<char>, p: Seq<char>, i: int)
    requires
        occurs_at(s, p, i),
        forall|j: int| 0 <= j < i ==> !#[trigger] occurs_at(s, p, j),
    ensures
        find_str_spec(s, p) == Some(i),
{
    let k = choose|k: int| occurs_at(s, p, k) && forall|j: int| 0 <= j < k ==> !#[trigger] occurs_at(s, p, j);
    assert(occurs_at(s, p, k));
    if k < i {
        assert(!occurs_at(s, p, k));
    }
    if i < k {
        assert(!occurs_at(s, p, i));
    }
}

/// The position of the first occurrence of `p` in `s`.
pub fn find_str(s: &str, p: &str) -> (r: Option<usize>)
    requires
        p@.len() > 0,
    ensures
        r matches Some(i) ==> find_str_spec(s@, p@) == Some(i as int),
        r is None ==> find_str_spec(s@, p@) is None,
{
    let vs = chars_of(s);
    let vp = chars_of(p);
    let n = vs.len();
    let m = vp.len();
    if m > n {
        assert forall|i: int| !occurs_at(s@, p@, i) by {}
        return None;
    }
    let mut i: usize = 0;
    while i <= n - m
        invariant
            vs@ == s@,
            vp@ == p@,
            n == vs.len(),
            m == vp.len(),
            m <= n,
            i <= n - m + 1,
            forall|j: int| 0 <= j < i ==> !#[trigger] occurs_at(s@, p@, j),
        decreases n + 1 - i,
    {
        let mut k: usize = 0;
        let mut same = true;
        while k < m
            invariant
                vs@ == s@,
                vp@ == p@,
                n == vs.len(),
                m == vp.len(),
                i + m <= n,
                k <= m,
                same == forall|t: int| 0 <= t < k ==> vs@[i + t] == vp@[t],
            decreases m - k,
        {
            if vs[i + k] != vp[k] {
                same = false;
            }
            k = k + 1;
        }
        if same {
            proof {
                assert(s@.subrange(i as int, i + m) =~= p@);
                lemma_first_occurrence(s@, p@, i as int);
            }
            return Some(i);
        }
        proof {
            if occurs_at(s@, p@, i as int) {
                assert forall|t: int| 0 <= t < m implies vs@[i + t] == vp@[t] by {
                    assert(s@.subrange(i as int, i + m)[t] == s@[i + t]);
                }
            }
        }
        i = i + 1;
    }
    proof {
        assert forall|j: int| !occurs_at(s@, p@, j) by {
            if 0 <= j < i {
            }
        }
    }
    None
}

/// Cuts `s` at every occurrence of `sep`, like `str::split`.
#[verifier::rlimit(30)]
pub fn split_str(s: &str, sep: &str) -> (r: Vec<String>)
    requires
        sep@.len() > 0,
    ensures
        views_of(r@) == split_spec(s@, sep@),
{
    let mut out: Vec<String> = Vec::new();
    let mut rest: String = owned(s);
    let ghost mut done: Seq<Seq<char>> = Seq::empty();
    let m = sep.unicode_len();
    proof {
        reveal(split_spec);
    }
    loop
        invariant
            sep@.len() > 0,
            m == sep@.len(),
            split_spec(s@, sep@) == done + split_spec(rest@, sep@),
            views_of(out@) == done,
        decreases rest@.len(),
    {
        let r = rest.as_str();
        match find_str(r, sep) {
            None => {
                let ghost before = out@;
                out.push(rest);
                proof {
                    reveal(split_spec);
                    assert(views_of(out@) =~= views_of(before).push(rest@));
                    assert(split_spec(rest@, sep@) == seq![rest@]);
                    assert(done + seq![rest@] =~= done.push(rest@));
                }
                return out;
            },
            Some(i) => {
                proof {
                    lemma_find_str(rest@, sep@);
                }
                let n = r.unicode_len();
                let head = r.substring_char(0, i);
                let tail = r.substring_char(i + m, n);
                let ghost before = out@;
                proof {
                    reveal(split_spec);
                    assert(split_spec(rest@, sep@) == seq![rest@.take(i as int)] + split_spec(
                        rest@.skip(i + m),
                        sep@,
                    ));
                    assert(head@ =~= rest@.take(i as int));
                    assert(tail@ =~= rest@.skip(i + m));
                    done = done.push(head@);
                }
                out.push(owned(head));
                let t = owned(tail);
                assert(views_of(out@) =~= views_of(before).push(head@));
                rest = t;
            },
        }
    }
}


/// Whether `c` is whitespace, as `is_whitespace` says.
pub fn is_space(c: char) -> (r: bool)
    ensures
        r == is_whitespace(c),
{
    ('\u{9}' <= c && c <= '\u{d}') || c == ' ' || c == '\u{85}' || c == '\u{a0}' || c == '\u{1680}'
        || ('\u{2000}' <= c && c <= '\u{200a}') || c == '\u{2028}' || c == '\u{2029}' || c == '\u{202f}'
        || c == '\u{205f}' || c == '\u{3000}'
}

/// The number of characters after the last whitespace of `s`.
pub open spec fn last_word_len(s: Seq<char>) -> nat
    decreases s.len(),
{
    if s.len() == 0 || is_whitespace(s.last()) {
        0
    } else {
        last_word_len(s.drop_last()) + 1
    }
}

/// The last word is no longer than the string.
pub proof fn lemma_last_word_len(s: Seq<char>)
    ensures
        last_word_len(s) <= s.len(),
    decreases s.len(),
{
    if s.len() > 0 && !is_whitespace(s.last()) {
        lemma_last_word_len(s.drop_last());
    }
}

/// The words of `s`: its runs of characters that are not whitespace, in
/// order.
pub open spec fn words(s: Seq<char>) -> Seq<Seq<char>>
    decreases s.len(),
{
    if s.len() == 0 {
        Seq::empty()
    } else if is_whitespace(s.last()) {
        words(s.drop_last())
    } else {
        let k = last_word_len(s);
        proof {
            lemma_last_word_len(s);
        }
        words(s.take(s.len() - k)).push(s.skip(s.len() - k))
    }
}

/// Splits `s` at whitespace into its words.
pub fn split_words(s: &str) -> (r: Vec<String>)
    ensures
        views_of(r@) == words(s@),
{
    let cs = chars_of(s);
    let n = cs.len();
    let mut out: Vec<String> = Vec::new();
    let mut cur = String::new();
    let mut i: usize = 0;
    while i < n
        invariant
            n == cs@.len(),
            cs@ == s@,
            i <= n,
            cur@.len() == last_word_len(cs@.take(i as int)),
            cur@ == cs@.take(i as int).skip(i - cur@.len()),
            words(cs@.take(i as int)) == (if cur@.len() == 0 { views_of(out@) } else { views_of(out@).push(cur@) }),
        decreases n - i,
    {
        let c = cs[i];
        let ghost t = cs@.take(i as int);
        let ghost t2 = cs@.take(i + 1);
        proof {
            assert(t2.drop_last() =~= t);
            assert(t2.last() == c);
            lemma_last_word_len(t);
        }
        if is_space(c) {
            if cur.unicode_len() > 0 {
                let ghost before = out@;
                out.push(cur);
                assert(views_of(out@) =~= views_of(before).push(cur@));
                cur = String::new();
            }
        } else {
            let ghost k = cur@.len();
            proof {
                if k > 0 {
                    assert(words(t) == words(t.take(t.len() - k)).push(t.skip(t.len() - k)));
                    assert(words(t).drop_last() =~= words(t.take(t.len() - k)));
                    assert(views_of(out@).push(cur@).drop_last() =~= views_of(out@));
                } else {
                    assert(t.take(t.len() - k) =~= t);
                }
                assert(t2.take(t2.len() - (k + 1)) =~= t.take(t.len() - k));
                assert(t2.skip(t2.len() - (k + 1)) =~= cur@.push(c));
            }
            string_push(&mut cur, c);
        }
        i = i + 1;
    }
    proof {
        assert(cs@.take(n as int) =~= cs@);
    }
    if cur.unicode_len() > 0 {
        let ghost before = out@;
        out.push(cur);
        assert(views_of(out@) =~= views_of(before).push(cur@));
    }
    out
}

/// Every line kept is not empty.
pub proof fn lemma_nonblank_nonempty(lines: Seq<Seq<char>>)
    ensures
        forall|k: int| 0 <= k < nonblank(lines).len() ==> #[trigger] nonblank(lines)[k].len() > 0,
    decreases lines.len(),
{
    if lines.len() > 0 {
        lemma_nonblank_nonempty(lines.drop_last());
        let rest = nonblank(lines.drop_last());
        if trimmed(lines.last()).len() != 0 {
            assert forall|k: int| 0 <= k < nonblank(lines).len() implies #[trigger] nonblank(lines)[k].len() > 0 by {
                if k < rest.len() {
                    assert(nonblank(lines)[k] == rest[k]);
                }
            }
        }
    }
}
} // verus!
