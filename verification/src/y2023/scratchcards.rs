//! Scratchcards: each card scores by how many of its chosen numbers win,
//! and wins copies of the cards after it.
use vstd::prelude::*;
use std::collections::{HashMap, HashSet};
use crate::text::{find_char, find_spec, nonblank, nonblank_lines, parse_i32, parse_int, split_words, strip_prefix, trim, trimmed, views_of, words};

verus! {

/// What went wrong reading a card.
#[derive(Clone, Copy, PartialEq, Eq, Structural, Debug)]
pub enum ErrorKind {
    InvalidLine,
    MissingColon,
    MissingPipe,
    InvalidNumber,
}

/// An error, with the text it is about.
pub struct Error {
    pub kind: ErrorKind,
    pub text: String,
}

pub open spec fn err_view(e: Error) -> (ErrorKind, Seq<char>) {
    (e.kind, e.text@)
}

/// A card: its winning numbers and the numbers chosen.
pub struct Card {
    pub winners: HashSet<i32>,
    pub chosen: Vec<i32>,
}

/// How many of the chosen numbers win, counting repeats.
pub open spec fn count_spec(chosen: Seq<i32>, winners: Set<i32>) -> nat
    decreases chosen.len(),
{
    if chosen.len() == 0 {
        0
    } else {
        count_spec(chosen.drop_last(), winners) + if winners.contains(chosen.last()) { 1nat } else { 0nat }
    }
}

/// One for the first winning number, doubled for each one after.
pub open spec fn score_spec(count: nat) -> int
    decreases count,
{
    if count == 0 {
        0
    } else if count == 1 {
        1
    } else {
        2 * score_spec((count - 1) as nat)
    }
}

impl Card {
    /// How many chosen numbers win.
    pub fn count(&self) -> (r: i32)
        requires
            self.chosen@.len() <= i32::MAX,
        ensures
            r == count_spec(self.chosen@, self.winners@),
    {
        let mut count: i32 = 0;
        let mut k: usize = 0;
        while k < self.chosen.len()
            invariant
                self.chosen@.len() <= i32::MAX,
                k <= self.chosen.len(),
                count == count_spec(self.chosen@.take(k as int), self.winners@),
                count <= k,
            decreases self.chosen.len() - k,
        {
            assert(self.chosen@.take(k + 1).drop_last() =~= self.chosen@.take(k as int));
            if self.winners.contains(&self.chosen[k]) {
                count = count + 1;
            }
            k = k + 1;
        }
        assert(self.chosen@.take(k as int) =~= self.chosen@);
        count
    }

    /// The card's points: one for the first winning number, doubled for
    /// each one after.
    pub fn score(&self) -> (r: i32)
        requires
            count_spec(self.chosen@, self.winners@) <= 31,
        ensures
            r == score_spec(count_spec(self.chosen@, self.winners@)),
    {
        let mut score: i32 = 0;
        let mut k: usize = 0;
        while k < self.chosen.len()
            invariant
                count_spec(self.chosen@, self.winners@) <= 31,
                k <= self.chosen.len(),
                score == score_spec(count_spec(self.chosen@.take(k as int), self.winners@)),
                count_spec(self.chosen@.take(k as int), self.winners@) <= count_spec(self.chosen@, self.winners@),
            decreases self.chosen.len() - k,
        {
            assert(self.chosen@.take(k + 1).drop_last() =~= self.chosen@.take(k as int));
            proof {
                lemma_count_prefix(self.chosen@, self.winners@, k as int + 1);
                lemma_score_bound(count_spec(self.chosen@.take(k as int), self.winners@));
            }
            if self.winners.contains(&self.chosen[k]) {
                score = if score == 0 { 1 } else { score * 2 };
            }
            k = k + 1;
        }
        assert(self.chosen@.take(k as int) =~= self.chosen@);
        score
    }
}

proof fn lemma_count_prefix(s: Seq<i32>, w: Set<i32>, k: int)
    requires
        0 <= k <= s.len(),
    ensures
        count_spec(s.take(k), w) <= count_spec(s, w),
    decreases s.len() - k,
{
    if k < s.len() {
        lemma_count_prefix(s, w, k + 1);
        assert(s.take(k + 1).drop_last() =~= s.take(k));
    } else {
        assert(s.take(k) =~= s);
    }
}

proof fn lemma_score_bound(c: nat)
    requires
        c <= 31,
    ensures
        c > 0 ==> 1 <= score_spec(c) <= 0x4000_0000,
        c == 0 ==> score_spec(c) == 0,
        c < 31 ==> score_spec(c) <= 0x2000_0000,
{
    lemma_score_mono(c, 31);
    if c < 31 {
        lemma_score_mono(c, 30);
    }
    assert(score_spec(30) == 0x2000_0000 && score_spec(31) == 0x4000_0000) by {
        reveal_with_fuel(score_spec, 32);
    }
    if c > 0 {
        lemma_score_mono(1, c);
    }
}

proof fn lemma_score_mono(a: nat, b: nat)
    requires
        a <= b,
    ensures
        score_spec(a) <= score_spec(b),
        score_spec(a) >= 0,
    decreases b,
{
    if a < b {
        lemma_score_mono(a, (b - 1) as nat);
    } else if a > 1 {
        lemma_score_mono((a - 1) as nat, (a - 1) as nat);
    }
}

/// The points of all the cards.
pub open spec fn total_score(cards: Seq<(Seq<i32>, Set<i32>)>) -> int
    decreases cards.len(),
{
    if cards.len() == 0 {
        0
    } else {
        total_score(cards.drop_last()) + score_spec(count_spec(cards.last().0, cards.last().1))
    }
}

/// A card as its chosen numbers and winning set.
pub open spec fn card_views(cards: Seq<Card>) -> Seq<(Seq<i32>, Set<i32>)> {
    cards.map_values(|c: Card| (c.chosen@, c.winners@))
}

/// Adds up the points of all the cards.
pub fn score_cards(v: &Vec<Card>) -> (r: i32)
    requires
        forall|i: int| 0 <= i < v.len() ==> count_spec(#[trigger] v@[i].chosen@, v@[i].winners@) <= 31,
        forall|k: int| 0 <= k <= v.len() ==> #[trigger] total_score(card_views(v@).take(k)) <= i32::MAX,
    ensures
        r == total_score(card_views(v@)),
{
    let ghost cv = card_views(v@);
    let mut score: i32 = 0;
    let mut i: usize = 0;
    while i < v.len()
        invariant
            cv == card_views(v@),
            forall|i: int| 0 <= i < v.len() ==> count_spec(#[trigger] v@[i].chosen@, v@[i].winners@) <= 31,
            forall|k: int| 0 <= k <= v.len() ==> #[trigger] total_score(cv.take(k)) <= i32::MAX,
            i <= v.len(),
            score == total_score(cv.take(i as int)),
        decreases v.len() - i,
    {
        assert(cv.take(i + 1).drop_last() =~= cv.take(i as int));
        let s = v[i].score();
        proof {
            lemma_score_bound(count_spec(v@[i as int].chosen@, v@[i as int].winners@));
            lemma_total_nonneg(cv.take(i as int));
            assert(total_score(cv.take(i + 1)) <= i32::MAX);
        }
        score = score + s;
        i = i + 1;
    }
    assert(cv.take(i as int) =~= cv);
    score
}

proof fn lemma_total_nonneg(cards: Seq<(Seq<i32>, Set<i32>)>)
    requires
        forall|i: int| 0 <= i < cards.len() ==> count_spec(#[trigger] cards[i].0, cards[i].1) <= 31,
    ensures
        total_score(cards) >= 0,
    decreases cards.len(),
{
    if cards.len() > 0 {
        let p = cards.drop_last();
        assert forall|i: int| 0 <= i < p.len() implies count_spec(#[trigger] p[i].0, p[i].1) <= 31 by {
            assert(p[i] == cards[i]);
        }
        lemma_total_nonneg(p);
        lemma_score_bound(count_spec(cards.last().0, cards.last().1));
    }
}

/// The sum of some numbers.
pub open spec fn sum(s: Seq<int>) -> int
    decreases s.len(),
{
    if s.len() == 0 {
        0
    } else {
        sum(s.drop_last()) + s.last()
    }
}

/// How many copies of each card from the `i`-th on end up held, given how
/// many numbers each card wins: one, plus the copies of each of the cards
/// it wins; `None` when a card wins copies past the last card.
pub open spec fn copies_from(counts: Seq<nat>, i: int) -> Option<Seq<int>>
    decreases counts.len() - i,
{
    if i < 0 || i >= counts.len() {
        Some(Seq::empty())
    } else {
        match copies_from(counts, i + 1) {
            None => None,
            Some(rest) => if i + counts[i] >= counts.len() && counts[i] > 0 {
                None
            } else {
                Some(seq![1 + sum(rest.take(counts[i] as int))] + rest)
            },
        }
    }
}

/// The last card before the `i`-th that wins copies past the last card.
pub open spec fn last_bad(counts: Seq<nat>, i: int) -> Option<int>
    decreases i,
{
    if i <= 0 {
        None
    } else if is_bad(counts, i - 1) {
        Some(i - 1)
    } else {
        last_bad(counts, i - 1)
    }
}

/// The last card that wins copies past the last card.
pub open spec fn bad_card(counts: Seq<nat>) -> Option<int> {
    last_bad(counts, counts.len() as int)
}

/// What went wrong counting copies.
pub enum CopyError {
    /// Card `card` wins a copy of card `target`, past the last card.
    OutOfBounds { card: usize, target: usize },
}

/// Card `i` wins copies past the last card.
pub open spec fn is_bad(counts: Seq<nat>, i: int) -> bool {
    counts[i] > 0 && i + counts[i] >= counts.len()
}

proof fn lemma_sum_prepend(x: int, r: Seq<int>)
    ensures
        sum(seq![x] + r) == x + sum(r),
    decreases r.len(),
{
    if r.len() > 0 {
        lemma_sum_prepend(x, r.drop_last());
        assert((seq![x] + r).drop_last() =~= seq![x] + r.drop_last());
        assert((seq![x] + r).last() == r.last());
    } else {
        assert(seq![x] + r =~= seq![x]);
        assert(seq![x].drop_last() =~= Seq::<int>::empty());
        assert(sum(Seq::<int>::empty()) == 0);
        assert(seq![x].last() == x);
    }
}

proof fn lemma_sum_take(s: Seq<int>, k: int)
    requires
        0 <= k <= s.len(),
        forall|j: int| 0 <= j < s.len() ==> s[j] >= 0,
    ensures
        0 <= sum(s.take(k)) <= sum(s),
    decreases s.len() - k,
{
    if k < s.len() {
        lemma_sum_take(s, k + 1);
        assert(s.take(k + 1).drop_last() =~= s.take(k));
        assert(s.take(k + 1).last() == s[k]);
        lemma_sum_nonneg(s.take(k));
    } else {
        assert(s.take(k) =~= s);
        lemma_sum_nonneg(s);
    }
}

proof fn lemma_sum_nonneg(s: Seq<int>)
    requires
        forall|j: int| 0 <= j < s.len() ==> s[j] >= 0,
    ensures
        sum(s) >= 0,
    decreases s.len(),
{
    if s.len() > 0 {
        lemma_sum_nonneg(s.drop_last());
    }
}

proof fn lemma_copies_pos(cs: Seq<nat>, i: int)
    requires
        0 <= i <= cs.len(),
    ensures
        copies_from(cs, i) matches Some(c) ==> c.len() == cs.len() - i && forall|k: int| 0 <= k < c.len() ==> c[k] >= 1,
    decreases cs.len() - i,
{
    if i < cs.len() {
        lemma_copies_pos(cs, i + 1);
        if let Some(rest) = copies_from(cs, i + 1) {
            if !is_bad(cs, i) {
                lemma_sum_take(rest, cs[i] as int);
                let c = seq![1 + sum(rest.take(cs[i] as int))] + rest;
                assert forall|k: int| 0 <= k < c.len() implies c[k] >= 1 by {
                    if k > 0 {
                        assert(c[k] == rest[k - 1]);
                    }
                }
            }
        }
    }
}

proof fn lemma_copies_none(cs: Seq<nat>, i: int, k: int)
    requires
        0 <= k <= i < cs.len(),
        copies_from(cs, i) is None,
    ensures
        copies_from(cs, k) is None,
    decreases i - k,
{
    if k < i {
        lemma_copies_none(cs, i, k + 1);
    }
}

proof fn lemma_bad_card(cs: Seq<nat>, i: int, k: int)
    requires
        0 <= i < k <= cs.len(),
        is_bad(cs, i),
        forall|j: int| i < j < cs.len() ==> !is_bad(cs, j),
    ensures
        last_bad(cs, k) == Some(i),
    decreases k,
{
    if k - 1 > i {
        lemma_bad_card(cs, i, k - 1);
    }
}

/// The number of cards held in the end, counting the copies each card wins
/// of the cards after it.
pub fn do_part2(v: &Vec<Card>) -> (r: Result<i32, CopyError>)
    requires
        forall|i: int| 0 <= i < v.len() ==> #[trigger] v@[i].chosen@.len() <= i32::MAX,
        forall|i: int| 0 <= i <= v.len() ==> (#[trigger] copies_from(card_counts(v@), i) matches Some(c) ==> 1 + sum(c)
            <= i32::MAX),
    ensures
        match copies_from(card_counts(v@), 0) {
            Some(c) => r matches Ok(n) && n == sum(c),
            None => r matches Err(CopyError::OutOfBounds { card, target }) && bad_card(card_counts(v@)) == Some(card as int)
                && target == v.len(),
        },
{
    let ghost cs = card_counts(v@);
    let n = v.len();
    let mut score: i32 = 0;
    let mut score_map: HashMap<usize, i32> = HashMap::new();
    let mut i = n;
    proof {
        assert(copies_from(cs, n as int) == Some(Seq::<int>::empty()));
    }
    while i > 0
        invariant
            cs == card_counts(v@),
            n == v.len(),
            cs.len() == n,
            forall|i: int| 0 <= i < v.len() ==> #[trigger] v@[i].chosen@.len() <= i32::MAX,
            forall|k: int| 0 <= k <= n ==> (#[trigger] copies_from(cs, k) matches Some(c) ==> 1 + sum(c) <= i32::MAX),
            i <= n,
            copies_from(cs, i as int) is Some,
            copies_from(cs, i as int)->0.len() == n - i,
            score == sum(copies_from(cs, i as int)->0),
            forall|j: usize| #![trigger score_map@[j]] #![trigger score_map@.contains_key(j)] i <= j < n ==> score_map@.contains_key(j) && score_map@[j]
                == copies_from(cs, i as int)->0[j - i],
            forall|j: int| i <= j < n ==> !is_bad(cs, j),
        decreases i,
    {
        let ghost i0 = i;
        i = i - 1;
        let ghost rest = copies_from(cs, i + 1)->0;
        assert(i0 == i + 1);
        proof {
            lemma_copies_pos(cs, i + 1);
        }
        let mut count: i32 = 1;
        let more = v[i].count() as usize;
        assert(more == cs[i as int]);
        let mut m: usize = 1;
        while m <= more
            invariant
                cs == card_counts(v@),
                n == v.len(),
                cs.len() == n,
                i < n,
                more == cs[i as int],
                1 <= m <= more + 1,
                rest == copies_from(cs, i + 1)->0,
                copies_from(cs, i + 1) is Some,
                rest.len() == n - i - 1,
                forall|k: int| 0 <= k < rest.len() ==> rest[k] >= 1,
                1 + sum(rest) <= i32::MAX,
                forall|j: usize| #![trigger score_map@[j]] #![trigger score_map@.contains_key(j)] i + 1 <= j < n ==> score_map@.contains_key(j) && score_map@[j]
                    == rest[j - i - 1],
                forall|j: int| i + 1 <= j < n ==> !is_bad(cs, j),
                count == 1 + sum(rest.take(m - 1)),
                i + m - 1 < n,
            decreases more + 1 - m,
        {
            let j = i + m;
            if j >= n {
                proof {
                    assert(is_bad(cs, i as int));
                    lemma_bad_card(cs, i as int, n as int);
                    assert(copies_from(cs, i as int) is None);
                    if i > 0 {
                        lemma_copies_none(cs, i as int, 0);
                    }
                }
                return Err(CopyError::OutOfBounds { card: i, target: j });
            }
            proof {
                assert(score_map@.contains_key(j));
            }
            let additional = *score_map.get(&j).unwrap();
            proof {
                assert(rest.take(m as int) =~= rest.take(m - 1).push(rest[m - 1]));
                assert(rest.take(m as int).drop_last() =~= rest.take(m - 1));
                assert(additional == rest[m - 1]);
                lemma_sum_take(rest, m as int);
            }
            count = count + additional;
            m = m + 1;
        }
        proof {
            assert(!is_bad(cs, i as int));
            let c = seq![1 + sum(rest.take(cs[i as int] as int))] + rest;
            assert(copies_from(cs, i as int) == Some(c));
            lemma_sum_prepend(1 + sum(rest.take(cs[i as int] as int)), rest);
            assert(1 + sum(c) <= i32::MAX);
            lemma_sum_nonneg(rest);
        }
        let ghost old_map = score_map@;
        score_map.insert(i, count);
        score = score + count;
        proof {
            let c = copies_from(cs, i as int)->0;
            assert(c[0] == count);
            assert forall|j: usize| i <= j < n implies score_map@.contains_key(j) && #[trigger] score_map@[j] == c[j - i] by {
                if j > i {
                    assert(c[j - i] == rest[j - i - 1]);
                    assert(old_map.contains_key(j));
                }
            }
        }
    }
    Ok(score)
}

/// How many numbers each card wins.
pub open spec fn card_counts(cards: Seq<Card>) -> Seq<nat> {
    cards.map_values(|c: Card| count_spec(c.chosen@, c.winners@))
}


/// An item read as an `i32`: trimmed, an optional sign, then digits.
pub open spec fn item_i32(item: Seq<char>) -> Option<int> {
    parse_int(trimmed(item), true, i32::MIN as int, i32::MAX as int)
}

/// The numbers the items spell, or the first item that does not read.
pub open spec fn read_numbers(items: Seq<Seq<char>>) -> Result<Seq<i32>, Seq<char>>
    decreases items.len(),
{
    if items.len() == 0 {
        Ok(Seq::empty())
    } else {
        match read_numbers(items.drop_last()) {
            Err(e) => Err(e),
            Ok(ns) => match item_i32(items.last()) {
                None => Err(trimmed(items.last())),
                Some(v) => Ok(ns.push(v as i32)),
            },
        }
    }
}

proof fn lemma_numbers_error(items: Seq<Seq<char>>, k: int, n: int)
    requires
        0 <= k <= n <= items.len(),
        read_numbers(items.take(k)) is Err,
    ensures
        read_numbers(items.take(n)) == read_numbers(items.take(k)),
    decreases n - k,
{
    if k < n {
        lemma_numbers_error(items, k, n - 1);
        assert(items.take(n).drop_last() =~= items.take(n - 1));
    }
}

/// Reads every item as an `i32`; fails with the first item that does not.
fn parse_numbers(items: &Vec<String>) -> (r: Result<Vec<i32>, String>)
    ensures
        match read_numbers(views_of(items@)) {
            Ok(ns) => r matches Ok(v) && v@ == ns,
            Err(e) => r matches Err(x) && x@ == e,
        },
{
    let ghost iv = views_of(items@);
    let mut v: Vec<i32> = Vec::new();
    let mut k: usize = 0;
    assert(iv.take(0) =~= Seq::<Seq<char>>::empty());
    while k < items.len()
        invariant
            iv == views_of(items@),
            k <= items.len(),
            read_numbers(iv.take(k as int)) == Ok::<Seq<i32>, Seq<char>>(v@),
        decreases items.len() - k,
    {
        assert(iv.take(k + 1).drop_last() =~= iv.take(k as int));
        assert(iv.take(k + 1).last() == items@[k as int]@);
        let t = trim(items[k].as_str());
        match parse_i32(t) {
            Some(x) => {
                v.push(x);
            },
            None => {
                proof {
                    lemma_numbers_error(iv, k + 1, iv.len() as int);
                    assert(iv.take(iv.len() as int) =~= iv);
                }
                return Err(t.to_string());
            },
        }
        k = k + 1;
    }
    assert(iv.take(k as int) =~= iv);
    Ok(v)
}

/// What reading a line gives: `Card <n>: <winning numbers> | <chosen
/// numbers>` as the winning numbers and the chosen ones, or the first thing
/// wrong.
pub open spec fn card_spec(line: Seq<char>) -> Result<(Seq<i32>, Seq<i32>), (ErrorKind, Seq<char>)> {
    if !(5 <= line.len() && line.take(5) == "Card "@) {
        Err((ErrorKind::InvalidLine, line))
    } else {
        let l1 = line.skip(5);
        match find_spec(l1, ':') {
            None => Err((ErrorKind::MissingColon, l1)),
            Some(c) => {
                let l2 = l1.skip(c + 1);
                match find_spec(l2, '|') {
                    None => Err((ErrorKind::MissingPipe, l2)),
                    Some(p) => match read_numbers(words(l2.take(p))) {
                        Err(e) => Err((ErrorKind::InvalidNumber, e)),
                        Ok(ws) => match read_numbers(words(l2.skip(p + 1))) {
                            Err(e) => Err((ErrorKind::InvalidNumber, e)),
                            Ok(cs) => Ok((ws, cs)),
                        },
                    },
                }
            },
        }
    }
}

/// A card as its chosen numbers and winning set, from what `card_spec`
/// reads.
pub open spec fn card_of(v: (Seq<i32>, Seq<i32>)) -> (Seq<i32>, Set<i32>) {
    (v.1, v.0.to_set())
}

impl Card {
    /// Reads a card.
    pub fn from_str(line: &str) -> (r: Result<Card, Error>)
        ensures
            match card_spec(line@) {
                Ok(v) => r matches Ok(c) && (c.chosen@, c.winners@) == card_of(v),
                Err(e) => r matches Err(x) && err_view(x) == e,
            },
    {
        let l1 = match strip_prefix(line, "Card ") {
            Some(t) => t,
            None => {
                proof {
                    reveal_strlit("Card ");
                }
                return Err(Error { kind: ErrorKind::InvalidLine, text: line.to_string() });
            },
        };
        proof {
            reveal_strlit("Card ");
        }
        let colon = match find_char(l1, ':') {
            Some(c) => c,
            None => {
                return Err(Error { kind: ErrorKind::MissingColon, text: l1.to_string() });
            },
        };
        proof {
            crate::text::lemma_find_in_range(l1@, ':');
        }
        let n1 = l1.unicode_len();
        let l2 = l1.substring_char(colon + 1, n1);
        let pipe = match find_char(l2, '|') {
            Some(p) => p,
            None => {
                return Err(Error { kind: ErrorKind::MissingPipe, text: l2.to_string() });
            },
        };
        proof {
            crate::text::lemma_find_in_range(l2@, '|');
        }
        let n2 = l2.unicode_len();
        let winners_str = l2.substring_char(0, pipe);
        let chosen_str = l2.substring_char(pipe + 1, n2);
        let winners_vec = match parse_numbers(&split_words(winners_str)) {
            Ok(v) => v,
            Err(e) => {
                return Err(Error { kind: ErrorKind::InvalidNumber, text: e });
            },
        };
        let chosen = match parse_numbers(&split_words(chosen_str)) {
            Ok(v) => v,
            Err(e) => {
                return Err(Error { kind: ErrorKind::InvalidNumber, text: e });
            },
        };
        let mut winners: HashSet<i32> = HashSet::new();
        let mut k: usize = 0;
        while k < winners_vec.len()
            invariant
                k <= winners_vec.len(),
                winners@ == winners_vec@.take(k as int).to_set(),
            decreases winners_vec.len() - k,
        {
            let ghost before = winners@;
            winners.insert(winners_vec[k]);
            proof {
                let t = winners_vec@.take(k + 1);
                assert(t.to_set() =~= before.insert(winners_vec@[k as int])) by {
                    assert forall|x: i32| t.contains(x) <==> (winners_vec@.take(k as int).contains(x) || x == winners_vec@[k as int]) by {
                        if t.contains(x) {
                            let j = choose|j: int| 0 <= j < t.len() && t[j] == x;
                            if j < k {
                                assert(winners_vec@.take(k as int)[j] == x);
                            }
                        }
                        if winners_vec@.take(k as int).contains(x) {
                            let j = choose|j: int| 0 <= j < k && winners_vec@.take(k as int)[j] == x;
                            assert(t[j] == x);
                        }
                        if x == winners_vec@[k as int] {
                            assert(t[k as int] == x);
                        }
                    }
                }
            }
            k = k + 1;
        }
        assert(winners_vec@.take(k as int) =~= winners_vec@);
        Ok(Card { winners, chosen })
    }
}

/// What reading the lines (each trimmed, blank ones skipped) gives: a card
/// each, or the first thing wrong.
pub open spec fn cards_spec(lines: Seq<Seq<char>>) -> Result<Seq<(Seq<i32>, Set<i32>)>, (ErrorKind, Seq<char>)>
    decreases lines.len(),
{
    if lines.len() == 0 {
        Ok(Seq::empty())
    } else {
        match cards_spec(lines.drop_last()) {
            Err(e) => Err(e),
            Ok(cs) => match card_spec(lines.last()) {
                Err(e) => Err(e),
                Ok(v) => Ok(cs.push(card_of(v))),
            },
        }
    }
}

proof fn lemma_cards_error(lines: Seq<Seq<char>>, k: int, n: int)
    requires
        0 <= k <= n <= lines.len(),
        cards_spec(lines.take(k)) is Err,
    ensures
        cards_spec(lines.take(n)) == cards_spec(lines.take(k)),
    decreases n - k,
{
    if k < n {
        lemma_cards_error(lines, k, n - 1);
        assert(lines.take(n).drop_last() =~= lines.take(n - 1));
    }
}

/// Reads the cards, one a line; blank lines are skipped.
pub fn read_input(lines: &Vec<String>) -> (r: Result<Vec<Card>, Error>)
    ensures
        match cards_spec(nonblank(views_of(lines@))) {
            Ok(cs) => r matches Ok(v) && card_views(v@) == cs,
            Err(e) => r matches Err(x) && err_view(x) == e,
        },
{
    let nb = nonblank_lines(lines);
    let ghost ls = views_of(nb@);
    let mut cards: Vec<Card> = Vec::new();
    let mut i: usize = 0;
    assert(ls.take(0) =~= Seq::<Seq<char>>::empty());
    assert(card_views(cards@) =~= Seq::<(Seq<i32>, Set<i32>)>::empty());
    while i < nb.len()
        invariant
            ls == views_of(nb@),
            ls == nonblank(views_of(lines@)),
            i <= nb.len(),
            cards_spec(ls.take(i as int)) == Ok::<Seq<(Seq<i32>, Set<i32>)>, (ErrorKind, Seq<char>)>(card_views(cards@)),
        decreases nb.len() - i,
    {
        assert(ls.take(i + 1).drop_last() =~= ls.take(i as int));
        assert(ls.take(i + 1).last() == nb@[i as int]@);
        match Card::from_str(nb[i].as_str()) {
            Err(e) => {
                proof {
                    assert(cards_spec(ls.take(i + 1)) == Err::<Seq<(Seq<i32>, Set<i32>)>, (ErrorKind, Seq<char>)>(err_view(e)));
                    lemma_cards_error(ls, i + 1, ls.len() as int);
                    assert(ls.take(ls.len() as int) =~= ls);
                }
                return Err(e);
            },
            Ok(c) => {
                let ghost before = card_views(cards@);
                cards.push(c);
                assert(card_views(cards@) =~= before.push((c.chosen@, c.winners@)));
            },
        }
        i = i + 1;
    }
    assert(ls.take(i as int) =~= ls);
    Ok(cards)
}
} // verus!
