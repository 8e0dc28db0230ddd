//! Distress signal: packets are numbers and nested lists, compared element
//! by element; count the pairs that are in the right order.
use vstd::prelude::*;
use crate::text::{all_digits, chars_of, digits_value, is_digit, nonblank, nonblank_lines, views_of};

verus! {

/// A packet: a number or a list of packets.
pub enum Packet {
    Number(u32),
    List(Vec<Packet>),
}

/// A packet as a mathematical value.
pub enum PacketView {
    Number(nat),
    List(Seq<PacketView>),
}

/// A packet's value.
pub open spec fn pview(p: Packet) -> PacketView
    decreases p,
{
    match p {
        Packet::Number(n) => PacketView::Number(n as nat),
        Packet::List(v) => PacketView::List(pviews(v@)),
    }
}

/// The values of some packets.
pub open spec fn pviews(v: Seq<Packet>) -> Seq<PacketView>
    decreases v,
{
    if v.len() == 0 {
        Seq::empty()
    } else {
        seq![pview(v[0])] + pviews(v.drop_first())
    }
}

/// A packet's size: one for a number, two plus the sizes of its items for
/// a list.
pub open spec fn size(p: PacketView) -> nat
    decreases p,
{
    match p {
        PacketView::Number(_) => 1,
        PacketView::List(s) => 2 + sizes(s),
    }
}

pub open spec fn sizes(s: Seq<PacketView>) -> nat
    decreases s,
{
    if s.len() == 0 {
        0
    } else {
        size(s[0]) + sizes(s.drop_first())
    }
}

/// How `l` compares with `r`: `-1` in the right order, `1` in the wrong
/// one, `0` when undecided. Two numbers compare as numbers; two lists item
/// by item, the shorter first when all its items tie; a number and a list
/// as the list of that number and the list.
pub open spec fn order(l: PacketView, r: PacketView) -> int
    decreases size(l) + size(r),
{
    match (l, r) {
        (PacketView::Number(a), PacketView::Number(b)) => if a < b {
            -1
        } else if b < a {
            1
        } else {
            0
        },
        (PacketView::Number(a), PacketView::List(rs)) => {
            proof {
                lemma_sizes_single(PacketView::Number(a));
            }
            order_lists(seq![PacketView::Number(a)], rs)
        },
        (PacketView::List(ls), PacketView::Number(b)) => {
            proof {
                lemma_sizes_single(PacketView::Number(b));
            }
            order_lists(ls, seq![PacketView::Number(b)])
        },
        (PacketView::List(ls), PacketView::List(rs)) => order_lists(ls, rs),
    }
}

/// How the list `ls` compares with the list `rs`.
pub open spec fn order_lists(ls: Seq<PacketView>, rs: Seq<PacketView>) -> int
    decreases sizes(ls) + sizes(rs) + 1,
{
    if ls.len() == 0 && rs.len() == 0 {
        0
    } else if ls.len() == 0 {
        -1
    } else if rs.len() == 0 {
        1
    } else {
        let c = order(ls[0], rs[0]);
        if c != 0 {
            c
        } else {
            order_lists(ls.drop_first(), rs.drop_first())
        }
    }
}

pub proof fn lemma_sizes_single(p: PacketView)
    ensures
        sizes(seq![p]) == size(p),
{
    let e = seq![p].drop_first();
    assert(e =~= Seq::<PacketView>::empty());
    assert(sizes(e) == 0);
    assert(seq![p][0] == p);
}

/// Comparing the other way round gives the opposite answer.
pub proof fn lemma_order_antisymmetric(l: PacketView, r: PacketView)
    ensures
        order(l, r) == -order(r, l),
    decreases size(l) + size(r),
{
    match (l, r) {
        (PacketView::Number(a), PacketView::Number(b)) => {},
        (PacketView::Number(a), PacketView::List(rs)) => {
            lemma_sizes_single(l);
            lemma_order_lists_antisymmetric(seq![l], rs);
        },
        (PacketView::List(ls), PacketView::Number(b)) => {
            lemma_sizes_single(r);
            lemma_order_lists_antisymmetric(ls, seq![r]);
        },
        (PacketView::List(ls), PacketView::List(rs)) => {
            lemma_order_lists_antisymmetric(ls, rs);
        },
    }
}

/// Comparing lists the other way round gives the opposite answer.
pub proof fn lemma_order_lists_antisymmetric(ls: Seq<PacketView>, rs: Seq<PacketView>)
    ensures
        order_lists(ls, rs) == -order_lists(rs, ls),
    decreases sizes(ls) + sizes(rs) + 1,
{
    if ls.len() > 0 && rs.len() > 0 {
        assert(sizes(ls) == size(ls[0]) + sizes(ls.drop_first()));
        assert(sizes(rs) == size(rs[0]) + sizes(rs.drop_first()));
        assert(size(ls[0]) >= 1 && size(rs[0]) >= 1);
        lemma_order_antisymmetric(ls[0], rs[0]);
        if order(ls[0], rs[0]) == 0 {
            lemma_order_lists_antisymmetric(ls.drop_first(), rs.drop_first());
        }
    }
}

/// A packet ties with itself.
pub proof fn lemma_order_reflexive(p: PacketView)
    ensures
        order(p, p) == 0,
    decreases size(p) + size(p),
{
    if let PacketView::List(s) = p {
        lemma_order_lists_reflexive(s);
    }
}

/// A list ties with itself.
pub proof fn lemma_order_lists_reflexive(s: Seq<PacketView>)
    ensures
        order_lists(s, s) == 0,
    decreases sizes(s) + sizes(s) + 1,
{
    if s.len() > 0 {
        assert(sizes(s) == size(s[0]) + sizes(s.drop_first()));
        assert(size(s[0]) >= 1);
        lemma_order_reflexive(s[0]);
        lemma_order_lists_reflexive(s.drop_first());
    }
}

proof fn lemma_pviews(v: Seq<Packet>)
    ensures
        pviews(v).len() == v.len(),
        forall|i: int| 0 <= i < v.len() ==> #[trigger] pviews(v)[i] == pview(v[i]),
    decreases v.len(),
{
    if v.len() > 0 {
        lemma_pviews(v.drop_first());
        assert forall|i: int| 0 <= i < v.len() implies #[trigger] pviews(v)[i] == pview(v[i]) by {
            if i > 0 {
                assert(pviews(v)[i] == pviews(v.drop_first())[i - 1]);
                assert(v.drop_first()[i - 1] == v[i]);
            }
        }
    }
}

/// Compares two packets.
pub fn compare(left: &Packet, right: &Packet) -> (r: std::cmp::Ordering)
    ensures
        (r == std::cmp::Ordering::Less) == (order(pview(*left), pview(*right)) < 0),
        (r == std::cmp::Ordering::Greater) == (order(pview(*left), pview(*right)) > 0),
        (r == std::cmp::Ordering::Equal) == (order(pview(*left), pview(*right)) == 0),
    decreases size(pview(*left)) + size(pview(*right)),
{
    match left {
        Packet::Number(l) => match right {
            Packet::Number(r) => {
                if l < r {
                    std::cmp::Ordering::Less
                } else if r < l {
                    std::cmp::Ordering::Greater
                } else {
                    std::cmp::Ordering::Equal
                }
            },
            Packet::List(rs) => {
                let mut l2: Vec<Packet> = Vec::new();
                l2.push(Packet::Number(*l));
                proof {
                    assert(l2@.drop_first() =~= Seq::<Packet>::empty());
                    assert(pviews(l2@.drop_first()) == Seq::<PacketView>::empty());
                    assert(pviews(l2@) =~= seq![pview(Packet::Number(*l))]);
                    lemma_sizes_single(pview(Packet::Number(*l)));
                }
                compare_lists(&l2, rs)
            },
        },
        Packet::List(ls) => match right {
            Packet::Number(r) => {
                let mut r2: Vec<Packet> = Vec::new();
                r2.push(Packet::Number(*r));
                proof {
                    assert(r2@.drop_first() =~= Seq::<Packet>::empty());
                    assert(pviews(r2@.drop_first()) == Seq::<PacketView>::empty());
                    assert(pviews(r2@) =~= seq![pview(Packet::Number(*r))]);
                    lemma_sizes_single(pview(Packet::Number(*r)));
                }
                compare_lists(ls, &r2)
            },
            Packet::List(rs) => compare_lists(ls, rs),
        },
    }
}

/// Compares two lists of packets item by item.
pub fn compare_lists(ls: &Vec<Packet>, rs: &Vec<Packet>) -> (r: std::cmp::Ordering)
    ensures
        (r == std::cmp::Ordering::Less) == (order_lists(pviews(ls@), pviews(rs@)) < 0),
        (r == std::cmp::Ordering::Greater) == (order_lists(pviews(ls@), pviews(rs@)) > 0),
        (r == std::cmp::Ordering::Equal) == (order_lists(pviews(ls@), pviews(rs@)) == 0),
    decreases sizes(pviews(ls@)) + sizes(pviews(rs@)) + 1,
{
    let ghost lv = pviews(ls@);
    let ghost rv = pviews(rs@);
    proof {
        lemma_pviews(ls@);
        lemma_pviews(rs@);
        assert(lv.skip(0) =~= lv);
        assert(rv.skip(0) =~= rv);
    }
    let mut i: usize = 0;
    let ghost mut gi: int = 0;
    while i < ls.len() && i < rs.len()
        invariant
            lv == pviews(ls@),
            rv == pviews(rs@),
            lv.len() == ls@.len(),
            rv.len() == rs@.len(),
            forall|k: int| 0 <= k < ls@.len() ==> #[trigger] lv[k] == pview(ls@[k]),
            forall|k: int| 0 <= k < rs@.len() ==> #[trigger] rv[k] == pview(rs@[k]),
            gi == i,
            i <= ls.len(),
            i <= rs.len(),
            order_lists(lv, rv) == order_lists(lv.skip(gi), rv.skip(gi)),
            sizes(lv.skip(gi)) <= sizes(lv),
            sizes(rv.skip(gi)) <= sizes(rv),
        decreases ls.len() - i,
    {
        proof {
            assert(lv.skip(gi).drop_first() =~= lv.skip(gi + 1));
            assert(rv.skip(gi).drop_first() =~= rv.skip(gi + 1));
            assert(lv.skip(gi)[0] == lv[gi]);
            assert(rv.skip(gi)[0] == rv[gi]);
        }
        match compare(&ls[i], &rs[i]) {
            std::cmp::Ordering::Equal => {},
            std::cmp::Ordering::Less => {
                return std::cmp::Ordering::Less;
            },
            std::cmp::Ordering::Greater => {
                return std::cmp::Ordering::Greater;
            },
        }
        i = i + 1;
        proof {
            gi = gi + 1;
        }
    }
    if i < ls.len() {
        std::cmp::Ordering::Greater
    } else if i < rs.len() {
        std::cmp::Ordering::Less
    } else {
        std::cmp::Ordering::Equal
    }
}


/// What went wrong reading a packet.
#[derive(Clone, Copy, PartialEq, Eq, Structural, Debug)]
pub enum Error {
    /// A digit was expected; the character found, or `None` at the end.
    DigitExpected(Option<char>),
    /// The input ended inside a list.
    ListExpected,
    /// The packet does not start with `[`.
    BracketExpected,
}

/// A token of a packet's text.
pub enum Token {
    EndOfInput,
    OpenBracket,
    CloseBracket,
    Comma,
    Number(u32),
}

/// A token as a value.
pub enum TokenView {
    End,
    Open,
    Close,
    Comma,
    Num(nat),
}

pub open spec fn token_view(t: Token) -> TokenView {
    match t {
        Token::EndOfInput => TokenView::End,
        Token::OpenBracket => TokenView::Open,
        Token::CloseBracket => TokenView::Close,
        Token::Comma => TokenView::Comma,
        Token::Number(n) => TokenView::Num(n as nat),
    }
}

/// Where the number starting at `i` stops: at the end, a `]`, a `,` or any
/// other character that is not a digit.
pub open spec fn number_end(s: Seq<char>, i: int) -> int
    decreases s.len() - i,
{
    if i < 0 || i >= s.len() || s[i] == ']' || s[i] == ',' || !is_digit(s[i]) {
        i
    } else {
        number_end(s, i + 1)
    }
}

/// The token at `i` and where the next one starts.
pub open spec fn token_spec(s: Seq<char>, i: int) -> Result<(TokenView, int), Error> {
    if i >= s.len() {
        Ok((TokenView::End, i))
    } else if s[i] == '[' {
        Ok((TokenView::Open, i + 1))
    } else if s[i] == ']' {
        Ok((TokenView::Close, i + 1))
    } else if s[i] == ',' {
        Ok((TokenView::Comma, i + 1))
    } else {
        let j = number_end(s, i);
        if j < s.len() && s[j] != ']' && s[j] != ',' {
            Err(Error::DigitExpected(Some(s[j])))
        } else {
            Ok((TokenView::Num(digits_value(s.subrange(i, j)) as nat), j))
        }
    }
}

/// Reading the items of a list from `i` on, after the `[`, with `acc` read
/// so far: the list and where it ends, or what is wrong.
pub open spec fn parse_items(s: Seq<char>, i: int, acc: Seq<PacketView>) -> Result<(PacketView, int), Error>
    decreases s.len() - i,
{
    if i < 0 || i > s.len() {
        Err(Error::ListExpected)
    } else {
        match token_spec(s, i) {
            Err(e) => Err(e),
            Ok((tok, j)) => if j <= i || j > s.len() {
                Err(Error::ListExpected)
            } else {
                match tok {
                    TokenView::Close => Ok((PacketView::List(acc), j)),
                    TokenView::End => Err(Error::ListExpected),
                    TokenView::Comma => parse_items(s, j, acc),
                    TokenView::Num(n) => parse_items(s, j, acc.push(PacketView::Number(n))),
                    TokenView::Open => match parse_items(s, j, Seq::empty()) {
                        Err(e) => Err(e),
                        Ok((p, k)) => if k <= i || k > s.len() {
                            Err(Error::ListExpected)
                        } else {
                            parse_items(s, k, acc.push(p))
                        },
                    },
                }
            },
        }
    }
}

/// What reading a packet gives.
pub open spec fn packet_spec(s: Seq<char>) -> Result<PacketView, Error> {
    match token_spec(s, 0) {
        Err(e) => Err(e),
        Ok((TokenView::Open, j)) => match parse_items(s, j, Seq::empty()) {
            Err(e) => Err(e),
            Ok((p, _)) => Ok(p),
        },
        Ok(_) => Err(Error::BracketExpected),
    }
}

/// Every run of digits in `s` spells a number that fits in `u32`.
pub open spec fn numbers_fit(s: Seq<char>) -> bool {
    forall|i: int, j: int| 0 <= i <= j <= s.len() && all_digits(#[trigger] s.subrange(i, j)) ==> digits_value(s.subrange(i, j)) <= u32::MAX
}

proof fn lemma_number_end(s: Seq<char>, i: int)
    requires
        0 <= i <= s.len(),
    ensures
        i <= number_end(s, i) <= s.len(),
        all_digits(s.subrange(i, number_end(s, i))),
    decreases s.len() - i,
{
    if !(i >= s.len() || s[i] == ']' || s[i] == ',' || !is_digit(s[i])) {
        lemma_number_end(s, i + 1);
        let j = number_end(s, i);
        assert forall|k: int| 0 <= k < s.subrange(i, j).len() implies is_digit(#[trigger] s.subrange(i, j)[k]) by {
            if k > 0 {
                assert(s.subrange(i, j)[k] == s.subrange(i + 1, j)[k - 1]);
            }
        }
    } else {
        assert(s.subrange(i, i).len() == 0);
    }
}

/// Reads the token at `*pos`, moving past it.
pub fn read_token(s: &Vec<char>, pos: &mut usize) -> (r: Result<Token, Error>)
    requires
        *old(pos) <= s@.len(),
        numbers_fit(s@),
    ensures
        match token_spec(s@, *old(pos) as int) {
            Ok((t, j)) => r matches Ok(x) && token_view(x) == t && *final(pos) == j,
            Err(e) => r == Err::<Token, Error>(e),
        },
        *final(pos) <= s@.len(),
{
    let i = *pos;
    if i >= s.len() {
        return Ok(Token::EndOfInput);
    }
    let c = s[i];
    if c == '[' {
        *pos = i + 1;
        return Ok(Token::OpenBracket);
    } else if c == ']' {
        *pos = i + 1;
        return Ok(Token::CloseBracket);
    } else if c == ',' {
        *pos = i + 1;
        return Ok(Token::Comma);
    }
    let mut num: u32 = 0;
    let mut j = i;
    proof {
        lemma_number_end(s@, i as int);
    }
    while j < s.len() && s[j] != ']' && s[j] != ',' && '0' <= s[j] && s[j] <= '9'
        invariant
            i <= j <= s@.len(),
            numbers_fit(s@),
            all_digits(s@.subrange(i as int, j as int)),
            num == digits_value(s@.subrange(i as int, j as int)),
            number_end(s@, i as int) == number_end(s@, j as int),
        decreases s.len() - j,
    {
        let ghost t = s@.subrange(i as int, j + 1);
        proof {
            assert(t.drop_last() =~= s@.subrange(i as int, j as int));
            assert(t.last() == s@[j as int]);
            assert(all_digits(t));
            assert(digits_value(t) <= u32::MAX);
            assert(digits_value(t) == num * 10 + ((s@[j as int] as int) - ('0' as int)));
        }
        let d = (s[j] as u32) - ('0' as u32);
        num = num * 10 + d;
        j = j + 1;
    }
    if j < s.len() && s[j] != ']' && s[j] != ',' {
        return Err(Error::DigitExpected(Some(s[j])));
    }
    *pos = j;
    Ok(Token::Number(num))
}

proof fn lemma_parse_continue(s: Seq<char>, i: int, acc: Seq<PacketView>)
    requires
        0 <= i <= s.len(),
    ensures
        parse_items(s, i, acc) matches Ok((_, k)) ==> i < k <= s.len(),
    decreases s.len() - i,
{
    match token_spec(s, i) {
        Err(_) => {},
        Ok((tok, j)) => {
            if !(j <= i || j > s.len()) {
                if i < s.len() {
                    lemma_token_advance(s, i);
                    match tok {
                        TokenView::Comma => lemma_parse_continue(s, j, acc),
                        TokenView::Num(n) => lemma_parse_continue(s, j, acc.push(PacketView::Number(n))),
                        TokenView::Open => {
                            lemma_parse_continue(s, j, Seq::empty());
                            if let Ok((p, k)) = parse_items(s, j, Seq::empty()) {
                                if k > i && k <= s.len() {
                                    lemma_parse_continue(s, k, acc.push(p));
                                }
                            }
                        },
                        _ => {},
                    }
                }
            }
        },
    }
}

proof fn lemma_token_advance(s: Seq<char>, i: int)
    requires
        0 <= i < s.len(),
    ensures
        token_spec(s, i) matches Ok((t, j)) ==> i < j <= s.len() && t != TokenView::End,
{
    lemma_number_end(s, i);
}

/// Reads the items of a list after its `[`, up to and past its `]`.
pub fn read_list(s: &Vec<char>, pos: &mut usize) -> (r: Result<Packet, Error>)
    requires
        *old(pos) <= s@.len(),
        numbers_fit(s@),
    ensures
        match parse_items(s@, *old(pos) as int, Seq::empty()) {
            Ok((p, k)) => r matches Ok(x) && pview(x) == p && *final(pos) == k,
            Err(e) => r matches Err(x) && x == e,
        },
        *final(pos) <= s@.len(),
    decreases s@.len() - *old(pos),
{
    let ghost start = *pos as int;
    let mut v: Vec<Packet> = Vec::new();
    proof {
        assert(pviews(v@) =~= Seq::<PacketView>::empty());
    }
    loop
        invariant
            *pos <= s@.len(),
            start == *old(pos) as int,
            start <= *pos,
            numbers_fit(s@),
            parse_items(s@, start, Seq::empty()) == parse_items(s@, *pos as int, pviews(v@)),
        decreases s@.len() - *pos,
    {
        let i = *pos;
        let ghost acc = pviews(v@);
        proof {
            if i < s@.len() {
                lemma_token_advance(s@, i as int);
            }
        }
        let tok = match read_token(s, pos) {
            Ok(t) => t,
            Err(e) => {
                proof {
                    assert(token_spec(s@, i as int) == Err::<(TokenView, int), Error>(e));
                    assert(parse_items(s@, i as int, acc) == Err::<(PacketView, int), Error>(e));
                }
                return Err(e);
            },
        };
        match tok {
            Token::CloseBracket => {
                return Ok(Packet::List(v));
            },
            Token::EndOfInput => {
                proof {
                    assert(token_spec(s@, i as int) == Ok::<(TokenView, int), Error>((TokenView::End, i as int)));
                    assert(parse_items(s@, i as int, acc) == Err::<(PacketView, int), Error>(Error::ListExpected));
                }
                return Err(Error::ListExpected);
            },
            Token::Comma => {},
            Token::Number(n) => {
                let ghost before = v@;
                v.push(Packet::Number(n));
                proof {
                    lemma_pviews_push(before, Packet::Number(n));
                }
            },
            Token::OpenBracket => {
                let j = *pos;
                proof {
                    lemma_parse_continue(s@, j as int, Seq::empty());
                }
                let p = match read_list(s, pos) {
                    Ok(p) => p,
                    Err(e) => {
                        return Err(e);
                    },
                };
                let ghost before = v@;
                v.push(p);
                proof {
                    lemma_pviews_push(before, p);
                }
            },
        }
    }
}

proof fn lemma_pviews_push(v: Seq<Packet>, p: Packet)
    ensures
        pviews(v.push(p)) == pviews(v).push(pview(p)),
{
    lemma_pviews(v.push(p));
    lemma_pviews(v);
    assert(pviews(v.push(p)) =~= pviews(v).push(pview(p)));
}

/// Reads a packet: a list in brackets.
pub fn read_packet(s: &str) -> (r: Result<Packet, Error>)
    requires
        numbers_fit(s@),
    ensures
        match packet_spec(s@) {
            Ok(p) => r matches Ok(x) && pview(x) == p,
            Err(e) => r matches Err(x) && x == e,
        },
{
    let cs = chars_of(s);
    let mut pos: usize = 0;
    match read_token(&cs, &mut pos) {
        Err(e) => Err(e),
        Ok(Token::OpenBracket) => read_list(&cs, &mut pos),
        Ok(_) => Err(Error::BracketExpected),
    }
}

/// Whether the pair is in the right order.
pub fn in_right_order(left: &Packet, right: &Packet) -> (r: bool)
    ensures
        r == (order(pview(*left), pview(*right)) < 0),
{
    match compare(left, right) {
        std::cmp::Ordering::Less => true,
        _ => false,
    }
}

/// The packets the lines hold, or the first error.
pub open spec fn packets_spec(lines: Seq<Seq<char>>) -> Result<Seq<PacketView>, Error>
    decreases lines.len(),
{
    if lines.len() == 0 {
        Ok(Seq::empty())
    } else {
        match packets_spec(lines.drop_last()) {
            Err(e) => Err(e),
            Ok(ps) => match packet_spec(lines.last()) {
                Err(e) => Err(e),
                Ok(p) => Ok(ps.push(p)),
            },
        }
    }
}

/// The sum of the numbers (from one) of the pairs of packets that are in
/// the right order.
pub open spec fn pair_sum(ps: Seq<PacketView>) -> int
    decreases ps.len(),
{
    if ps.len() == 0 {
        0
    } else if ps.len() % 2 == 1 {
        pair_sum(ps.drop_last())
    } else {
        pair_sum(ps.take(ps.len() - 2)) + if order(ps[ps.len() - 2], ps[ps.len() - 1]) < 0 {
            ps.len() / 2
        } else {
            0
        }
    }
}

proof fn lemma_packets_error(lines: Seq<Seq<char>>, k: int, n: int)
    requires
        0 <= k <= n <= lines.len(),
        packets_spec(lines.take(k)) is Err,
    ensures
        packets_spec(lines.take(n)) == packets_spec(lines.take(k)),
    decreases n - k,
{
    if k < n {
        lemma_packets_error(lines, k, n - 1);
        assert(lines.take(n).drop_last() =~= lines.take(n - 1));
    }
}

proof fn lemma_pair_sum_bound(ps: Seq<PacketView>)
    ensures
        0 <= pair_sum(ps) <= ps.len() * ps.len(),
    decreases ps.len(),
{
    if ps.len() > 0 {
        if ps.len() % 2 == 1 {
            lemma_pair_sum_bound(ps.drop_last());
            assert((ps.len() - 1) * (ps.len() - 1) <= ps.len() * ps.len()) by (nonlinear_arith)
                requires
                    ps.len() >= 1,
            ;
        } else {
            lemma_pair_sum_bound(ps.take(ps.len() - 2));
            assert((ps.len() - 2) * (ps.len() - 2) + ps.len() / 2 <= ps.len() * ps.len()) by (nonlinear_arith)
                requires
                    ps.len() >= 2,
            ;
        }
    }
}

/// Reads the packets, one a line (each trimmed; blank lines skipped), and
/// adds up the numbers (from one) of the pairs in the right order.
pub fn read_input(lines: &Vec<String>) -> (r: Result<i32, Error>)
    requires
        forall|k: int| 0 <= k < nonblank(views_of(lines@)).len() ==> numbers_fit(#[trigger] nonblank(views_of(lines@))[k]),
        nonblank(views_of(lines@)).len() <= 0x8000,
    ensures
        match packets_spec(nonblank(views_of(lines@))) {
            Ok(ps) => r matches Ok(n) && n == pair_sum(ps),
            Err(e) => r matches Err(x) && x == e,
        },
{
    let nb = nonblank_lines(lines);
    let ghost ls = views_of(nb@);
    let mut index: i32 = 1;
    let mut last_packet = Packet::Number(0);
    let mut sum: i32 = 0;
    let ghost mut ps: Seq<PacketView> = Seq::empty();
    let mut i: usize = 0;
    assert(ls.take(0) =~= Seq::<Seq<char>>::empty());
    while i < nb.len()
        invariant
            ls == views_of(nb@),
            ls == nonblank(views_of(lines@)),
            ls.len() <= 0x8000,
            forall|k: int| 0 <= k < ls.len() ==> numbers_fit(#[trigger] ls[k]),
            i <= nb.len(),
            index == i + 1,
            packets_spec(ls.take(i as int)) == Ok::<Seq<PacketView>, Error>(ps),
            ps.len() == i,
            i > 0 ==> pview(last_packet) == ps.last(),
            sum == pair_sum(ps),
        decreases nb.len() - i,
    {
        assert(ls.take(i + 1).drop_last() =~= ls.take(i as int));
        assert(ls.take(i + 1).last() == nb@[i as int]@);
        assert(numbers_fit(ls[i as int]));
        let packet = match read_packet(nb[i].as_str()) {
            Ok(p) => p,
            Err(e) => {
                proof {
                    lemma_packets_error(ls, i + 1, ls.len() as int);
                    assert(ls.take(ls.len() as int) =~= ls);
                }
                return Err(e);
            },
        };
        let ghost nps = ps.push(pview(packet));
        proof {
            lemma_pair_sum_bound(nps);
            assert(nps.len() * nps.len() <= 0x8000 * 0x8000) by (nonlinear_arith)
                requires
                    nps.len() <= 0x8000,
            ;
        }
        if index % 2 == 0 {
            let right = in_right_order(&last_packet, &packet);
            proof {
                assert(nps.take(nps.len() - 2) =~= ps.drop_last());
                assert(nps[nps.len() - 2] == ps.last());
                assert(pair_sum(ps) == pair_sum(ps.drop_last()));
            }
            if right {
                sum = sum + (index / 2);
            }
        } else {
            proof {
                assert(nps.drop_last() =~= ps);
            }
        }
        index = index + 1;
        last_packet = packet;
        proof {
            ps = nps;
        }
        i = i + 1;
    }
    assert(ls.take(i as int) =~= ls);
    Ok(sum)
}
} // verus!
