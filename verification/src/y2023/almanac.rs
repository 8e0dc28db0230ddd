//! If you give a seed a fertilizer: maps of ranges send seed numbers on to
//! soil, fertilizer, ... location numbers; find the lowest location of the
//! seeds, and of whole ranges of seeds.
use vstd::prelude::*;

verus! {

/// A range of numbers: `start` and the `len` after it.
#[derive(Clone, Copy, PartialEq, Eq, Structural)]
pub struct Range {
    pub start: i64,
    pub len: i64,
}

impl Range {
    /// The first number after the range.
    pub fn end(&self) -> (r: i64)
        requires
            i64::MIN <= self.start + self.len <= i64::MAX,
        ensures
            r == self.start + self.len,
    {
        self.start + self.len
    }
}

/// A range of source numbers and how far each is moved.
#[derive(Clone, Copy, PartialEq, Eq, Structural)]
pub struct MapRange {
    pub src: Range,
    pub dst_offset: i64,
}

impl MapRange {
    /// The range that sends `src_start ..` to `dst_start ..`, `len` long.
    pub fn new(dst_start: i64, src_start: i64, len: i64) -> (r: MapRange)
        requires
            i64::MIN <= dst_start - src_start <= i64::MAX,
        ensures
            r.src == (Range { start: src_start, len }),
            r.dst_offset == dst_start - src_start,
    {
        MapRange { src: Range { start: src_start, len }, dst_offset: dst_start - src_start }
    }
}

/// One map: its ranges, sorted by their start.
pub struct Mapping {
    pub ranges: Vec<MapRange>,
}

/// A usable range: not empty, from zero on, and every number it sends
/// lands inside `i64`.
pub open spec fn range_ok(r: MapRange) -> bool {
    &&& 0 <= r.src.start
    &&& 1 <= r.src.len
    &&& r.src.start + r.src.len <= i64::MAX
    &&& i64::MIN <= r.src.start + r.dst_offset
    &&& r.src.start + r.src.len + r.dst_offset <= i64::MAX
}

/// The ranges are usable, in order and do not overlap.
pub open spec fn map_ok(rs: Seq<MapRange>) -> bool {
    &&& forall|i: int| 0 <= i < rs.len() ==> range_ok(#[trigger] rs[i])
    &&& forall|i: int, j: int| 0 <= i < j < rs.len() ==> rs[i].src.start + rs[i].src.len <= rs[j].src.start
}

/// `x` lies in range `r`.
pub open spec fn covers(r: MapRange, x: int) -> bool {
    r.src.start <= x < r.src.start + r.src.len
}

/// Some range of the map holds `x`.
pub open spec fn is_covered(rs: Seq<MapRange>, x: int) -> bool {
    exists|i: int| 0 <= i < rs.len() && covers(rs[i], x)
}

/// The range that holds `x`.
pub open spec fn cover_of(rs: Seq<MapRange>, x: int) -> int {
    choose|i: int| 0 <= i < rs.len() && covers(rs[i], x)
}

/// Where the map sends `x`: moved by the range that holds it, else left
/// where it is.
pub open spec fn map_fn(rs: Seq<MapRange>, x: int) -> int {
    if is_covered(rs, x) {
        x + rs[cover_of(rs, x)].dst_offset
    } else {
        x
    }
}

/// The first range, from the `i`-th on, that ends after `x`; the number of
/// ranges if none does.
pub open spec fn first_end_after(rs: Seq<MapRange>, x: int, i: int) -> int
    decreases rs.len() - i,
{
    if i < 0 || i >= rs.len() {
        rs.len() as int
    } else if rs[i].src.start + rs[i].src.len > x {
        i
    } else {
        first_end_after(rs, x, i + 1)
    }
}

pub open spec fn smaller(a: int, b: int) -> int {
    if a <= b { a } else { b }
}

/// How much of `x .. x + n` the map sends on in one piece: up to the end of
/// the range that holds `x`, or else up to the start of the next range (the
/// first that ends after `x`).
pub open spec fn piece_len(rs: Seq<MapRange>, x: int, n: int) -> int {
    if is_covered(rs, x) {
        let r = rs[cover_of(rs, x)];
        smaller(n, r.src.start + r.src.len - x)
    } else if first_end_after(rs, x, 0) < rs.len() {
        smaller(n, rs[first_end_after(rs, x, 0)].src.start - x)
    } else {
        n
    }
}

/// Where the map sends `x .. x + n`: one range for each piece, in order.
pub open spec fn pieces(rs: Seq<MapRange>, x: int, n: int) -> Seq<Range>
    decreases n,
{
    if n <= 0 {
        Seq::empty()
    } else {
        let l = piece_len(rs, x, n);
        if l <= 0 || l > n {
            Seq::empty()
        } else {
            seq![Range { start: map_fn(rs, x) as i64, len: l as i64 }] + pieces(rs, x + l, n - l)
        }
    }
}

/// The numbers that a range holds, in order.
pub open spec fn span(r: Range) -> Seq<int> {
    Seq::new(if r.len >= 0 { r.len as nat } else { 0 }, |t: int| r.start + t)
}

/// The numbers that some ranges hold, in order.
pub open spec fn flatten(rs: Seq<Range>) -> Seq<int>
    decreases rs.len(),
{
    if rs.len() == 0 {
        Seq::empty()
    } else {
        span(rs[0]) + flatten(rs.drop_first())
    }
}

proof fn lemma_map_fn_at(rs: Seq<MapRange>, i: int, x: int)
    requires
        map_ok(rs),
        0 <= i < rs.len(),
        covers(rs[i], x),
    ensures
        is_covered(rs, x),
        cover_of(rs, x) == i,
        map_fn(rs, x) == x + rs[i].dst_offset,
{
    let k = cover_of(rs, x);
    if k < i {
        assert(rs[k].src.start + rs[k].src.len <= rs[i].src.start);
    } else if i < k {
        assert(rs[i].src.start + rs[i].src.len <= rs[k].src.start);
    }
}

proof fn lemma_first_end(rs: Seq<MapRange>, x: int, i: int)
    requires
        0 <= i <= rs.len(),
    ensures
        i <= first_end_after(rs, x, i) <= rs.len(),
        forall|j: int| i <= j < first_end_after(rs, x, i) ==> #[trigger] rs[j].src.start + rs[j].src.len <= x,
        first_end_after(rs, x, i) < rs.len() ==> rs[first_end_after(rs, x, i)].src.start
            + rs[first_end_after(rs, x, i)].src.len > x,
    decreases rs.len() - i,
{
    if i < rs.len() && rs[i].src.start + rs[i].src.len <= x {
        lemma_first_end(rs, x, i + 1);
    }
}

/// Nothing of the map holds `x` when every range ends by `x` or starts
/// after it.
proof fn lemma_not_covered(rs: Seq<MapRange>, x: int)
    requires
        forall|k: int| 0 <= k < rs.len() ==> #[trigger] rs[k].src.start + rs[k].src.len <= x || rs[k].src.start > x,
    ensures
        !is_covered(rs, x),
        map_fn(rs, x) == x,
{
}

/// A number in the gap after an uncovered `x`, before the next range, is
/// not covered either.
proof fn lemma_gap_point(rs: Seq<MapRange>, x: int, y: int)
    requires
        map_ok(rs),
        !is_covered(rs, x),
        x <= y,
        first_end_after(rs, x, 0) < rs.len() ==> y < rs[first_end_after(rs, x, 0)].src.start,
    ensures
        map_fn(rs, y) == y,
{
    let k = first_end_after(rs, x, 0);
    lemma_first_end(rs, x, 0);
    assert forall|j: int| 0 <= j < rs.len() implies #[trigger] rs[j].src.start + rs[j].src.len <= y
        || rs[j].src.start > y by {
        if k < j {
            assert(rs[k].src.start + rs[k].src.len <= rs[j].src.start);
            assert(!covers(rs[k], x));
        } else if j == k {
            assert(!covers(rs[k], x));
        }
    }
    lemma_not_covered(rs, y);
}

/// A piece is not empty, the map moves all its numbers alike, and where
/// they land fits in `i64`.
proof fn lemma_piece(rs: Seq<MapRange>, x: int, n: int)
    requires
        map_ok(rs),
        1 <= n,
        i64::MIN <= x,
        x + n <= i64::MAX,
    ensures
        1 <= piece_len(rs, x, n) <= n,
        i64::MIN <= map_fn(rs, x),
        map_fn(rs, x) + piece_len(rs, x, n) <= i64::MAX,
        forall|t: int| 0 <= t < piece_len(rs, x, n) ==> #[trigger] map_fn(rs, x + t) == map_fn(rs, x) + t,
{
    let l = piece_len(rs, x, n);
    if is_covered(rs, x) {
        let i = cover_of(rs, x);
        assert(range_ok(rs[i]));
        assert forall|t: int| 0 <= t < l implies #[trigger] map_fn(rs, x + t) == map_fn(rs, x) + t by {
            lemma_map_fn_at(rs, i, x + t);
        }
    } else {
        lemma_first_end(rs, x, 0);
        let k = first_end_after(rs, x, 0);
        if k < rs.len() {
            assert(!covers(rs[k], x));
        }
        assert forall|t: int| 0 <= t < l implies #[trigger] map_fn(rs, x + t) == map_fn(rs, x) + t by {
            lemma_gap_point(rs, x, x + t);
        }
    }
}

/// The pieces of `x .. x + n` hold, in order, where the map sends each of
/// its numbers; each piece is not empty and fits in `i64`.
pub proof fn lemma_pieces(rs: Seq<MapRange>, x: int, n: int)
    requires
        map_ok(rs),
        0 <= n <= i64::MAX,
        i64::MIN <= x,
        x + n <= i64::MAX,
    ensures
        flatten(pieces(rs, x, n)) == Seq::new(n as nat, |t: int| map_fn(rs, x + t)),
        forall|k: int| 0 <= k < pieces(rs, x, n).len() ==> 1 <= #[trigger] pieces(rs, x, n)[k].len
            && pieces(rs, x, n)[k].start + pieces(rs, x, n)[k].len <= i64::MAX,
    decreases n,
{
    let ps = pieces(rs, x, n);
    if n == 0 {
        assert(flatten(ps) =~= Seq::new(n as nat, |t: int| map_fn(rs, x + t)));
    } else {
        lemma_piece(rs, x, n);
        let l = piece_len(rs, x, n);
        let p = Range { start: map_fn(rs, x) as i64, len: l as i64 };
        lemma_pieces(rs, x + l, n - l);
        let rest = pieces(rs, x + l, n - l);
        assert(ps == seq![p] + rest);
        assert(ps.drop_first() =~= rest);
        assert(ps[0] == p);
        assert(flatten(ps) == span(p) + flatten(rest));
        assert(p.start == map_fn(rs, x) && p.len == l);
        assert(span(p).len() == l);
        assert(flatten(rest).len() == n - l);
        assert(flatten(ps) =~= Seq::new(n as nat, |t: int| map_fn(rs, x + t))) by {
            assert forall|t: int| 0 <= t < n implies #[trigger] flatten(ps)[t] == map_fn(rs, x + t) by {
                if t < l {
                    assert(flatten(ps)[t] == span(p)[t]);
                    assert(map_fn(rs, x + t) == map_fn(rs, x) + t);
                } else {
                    assert(flatten(ps)[t] == flatten(rest)[t - l]);
                    assert(flatten(rest)[t - l] == map_fn(rs, x + l + (t - l)));
                    assert(x + l + (t - l) == x + t);
                }
            }
        }
        assert forall|k: int| 0 <= k < ps.len() implies 1 <= #[trigger] ps[k].len
            && ps[k].start + ps[k].len <= i64::MAX by {
            if k > 0 {
                assert(ps[k] == rest[k - 1]);
            }
        }
    }
}

/// A map sends a range of one number to the range of one number where it
/// sends that number.
pub proof fn lemma_unit_range(rs: Seq<MapRange>, x: int)
    requires
        map_ok(rs),
        i64::MIN <= x < i64::MAX,
    ensures
        pieces(rs, x, 1) == seq![Range { start: map_fn(rs, x) as i64, len: 1 }],
{
    lemma_piece(rs, x, 1);
    assert(pieces(rs, x + 1, 0) =~= Seq::<Range>::empty());
    assert(pieces(rs, x, 1) =~= seq![Range { start: map_fn(rs, x) as i64, len: 1 }]);
}

/// Searches the ranges by start.
///
/// Calls `<[MapRange]>::binary_search_by_key` with the start of each range
/// as key; its documentation says that on a slice sorted by the key it
/// returns `Ok` with the index of some element with that key, or `Err`
/// with the index at which such an element could be inserted keeping the
/// order.
#[verifier::external_body]
fn search_start(ranges: &Vec<MapRange>, key: i64) -> (r: Result<usize, usize>)
    requires
        forall|i: int, j: int| 0 <= i < j < ranges.len() ==> ranges@[i].src.start <= ranges@[j].src.start,
    ensures
        r matches Ok(i) ==> i < ranges.len() && ranges@[i as int].src.start == key,
        r matches Err(i) ==> i <= ranges.len() && (forall|j: int| 0 <= j < i ==> ranges@[j].src.start < key) && (
        forall|j: int| i <= j < ranges.len() ==> ranges@[j].src.start > key),
{
    ranges.binary_search_by_key(&key, |r| r.src.start)
}

impl Mapping {
    /// Where the map sends one number.
    pub fn map_single(&self, src: i64) -> (r: i64)
        requires
            map_ok(self.ranges@),
        ensures
            r == map_fn(self.ranges@, src as int),
    {
        let ghost rs = self.ranges@;
        proof {
            assert forall|i: int, j: int| 0 <= i < j < rs.len() implies rs[i].src.start <= rs[j].src.start by {
                assert(range_ok(rs[i]));
            }
        }
        match search_start(&self.ranges, src) {
            Ok(i) => {
                proof {
                    assert(range_ok(rs[i as int]));
                    lemma_map_fn_at(rs, i as int, src as int);
                }
                src + self.ranges[i].dst_offset
            },
            Err(i) => {
                if i == 0 {
                    proof {
                        assert forall|k: int| 0 <= k < rs.len() implies !covers(rs[k], src as int) by {}
                    }
                    src
                } else {
                    let prev = self.ranges[i - 1];
                    assert(range_ok(prev));
                    if src >= prev.src.start + prev.src.len {
                        proof {
                            assert forall|k: int| 0 <= k < rs.len() implies !covers(rs[k], src as int) by {
                                if k < i - 1 {
                                    assert(rs[k].src.start + rs[k].src.len <= rs[i - 1].src.start);
                                }
                            }
                        }
                        src
                    } else {
                        proof {
                            lemma_map_fn_at(rs, i - 1, src as int);
                        }
                        src + prev.dst_offset
                    }
                }
            },
        }
    }
}


impl Mapping {
    /// Where the map sends a whole range: the ranges it is cut into where
    /// the map's ranges start and end, each moved as the map moves it.
    pub fn map_range(&self, src: &Range) -> (v: Vec<Range>)
        requires
            map_ok(self.ranges@),
            src.len > 0 ==> self.ranges.len() > 0,
            src.start + src.len <= i64::MAX,
        ensures
            v@ == pieces(self.ranges@, src.start as int, src.len as int),
    {
        let ghost rs = self.ranges@;
        proof {
            assert forall|i: int, j: int| 0 <= i < j < rs.len() implies rs[i].src.start <= rs[j].src.start by {
                assert(range_ok(rs[i]));
            }
        }
        let mut v: Vec<Range> = Vec::new();
        let mut current = Range { start: src.start, len: src.len };
        while current.len > 0
            invariant
                rs == self.ranges@,
                map_ok(rs),
                current.len > 0 ==> rs.len() > 0,
                forall|i: int, j: int| 0 <= i < j < rs.len() ==> rs[i].src.start <= rs[j].src.start,
                current.start + current.len <= i64::MAX,
                v@ + pieces(rs, current.start as int, current.len as int) == pieces(rs, src.start as int, src.len as int),
            decreases current.len,
        {
            let ghost cs = current.start as int;
            let ghost cl = current.len as int;
            proof {
                lemma_piece(rs, cs, cl);
                lemma_first_end(rs, cs, 0);
            }
            let (offset, len) = match search_start(&self.ranges, current.start) {
                Ok(i) => {
                    proof {
                        assert(range_ok(rs[i as int]));
                        lemma_map_fn_at(rs, i as int, cs);
                    }
                    let l = if current.len <= self.ranges[i].src.len { current.len } else { self.ranges[i].src.len };
                    (self.ranges[i].dst_offset, l)
                },
                Err(i) => {
                    if i == 0 {
                        proof {
                            assert(range_ok(rs[0]));
                            lemma_not_covered(rs, cs);
                            assert(first_end_after(rs, cs, 0) == 0);
                        }
                        if current.end() < self.ranges[i].src.start {
                            (0, current.len)
                        } else {
                            (0, self.ranges[i].src.start - current.start)
                        }
                    } else if current.start >= self.ranges[i - 1].src.end() {
                        proof {
                            assert forall|k: int| 0 <= k < rs.len() implies #[trigger] rs[k].src.start + rs[k].src.len <= cs
                                || rs[k].src.start > cs by {
                                assert(range_ok(rs[k]));
                                if k < i - 1 {
                                    assert(rs[k].src.start + rs[k].src.len <= rs[i - 1].src.start);
                                }
                            }
                            lemma_not_covered(rs, cs);
                            let k = first_end_after(rs, cs, 0);
                            if k < i {
                                assert(rs[k].src.start + rs[k].src.len > cs);
                                assert(range_ok(rs[k]));
                                if k < i - 1 {
                                    assert(rs[k].src.start + rs[k].src.len <= rs[i - 1].src.start);
                                }
                            }
                            if i < rs.len() {
                                assert(range_ok(rs[i as int]));
                                if k > i {
                                    assert(rs[i as int].src.start + rs[i as int].src.len <= cs);
                                }
                            }
                        }
                        if i == self.ranges.len() {
                            (0, current.len)
                        } else {
                            let next_start = self.ranges[i].src.start;
                            if next_start >= current.end() {
                                (0, current.len)
                            } else {
                                (0, next_start - current.start)
                            }
                        }
                    } else {
                        proof {
                            assert(range_ok(rs[i - 1]));
                            lemma_map_fn_at(rs, i - 1, cs);
                        }
                        let range_len = self.ranges[i - 1].src.end() - current.start;
                        let l = if range_len <= current.len { range_len } else { current.len };
                        (self.ranges[i - 1].dst_offset, l)
                    }
                },
            };
            proof {
                assert(len == piece_len(rs, cs, cl));
                assert(cs + offset == map_fn(rs, cs));
            }
            let piece = Range { start: current.start + offset, len: len };
            proof {
                let rest = pieces(rs, cs + len, cl - len);
                assert(pieces(rs, cs, cl) == seq![piece] + rest);
                assert(v@.push(piece) + rest =~= v@ + (seq![piece] + rest));
            }
            v.push(piece);
            current = Range { start: current.start + len, len: current.len - len };
        }
        proof {
            assert(pieces(rs, current.start as int, current.len as int) =~= Seq::<Range>::empty());
            assert(v@ + Seq::<Range>::empty() =~= v@);
        }
        v
    }

    /// Where the map sends one number, found both alone and as a range of
    /// one number; the two agree.
    pub fn map(&self, src: i64) -> (r: i64)
        requires
            map_ok(self.ranges@),
            self.ranges.len() > 0,
            src < i64::MAX,
        ensures
            r == map_fn(self.ranges@, src as int),
    {
        let single = self.map_single(src);
        let range = self.map_range(&Range { start: src, len: 1 });
        proof {
            lemma_unit_range(self.ranges@, src as int);
            assert(range@.len() == 1 && range@[0].len == 1 && range@[0].start == single);
        }
        single
    }
}

/// The seeds and the maps, in the order they are applied.
pub struct Input {
    pub seeds: Vec<i64>,
    pub maps: Vec<Mapping>,
}

/// The ranges of each map.
pub open spec fn maps_view(maps: Seq<Mapping>) -> Seq<Seq<MapRange>> {
    maps.map_values(|m: Mapping| m.ranges@)
}

/// Every map is usable and has a range.
pub open spec fn maps_ok(ms: Seq<Seq<MapRange>>) -> bool {
    forall|i: int| 0 <= i < ms.len() ==> map_ok(#[trigger] ms[i]) && ms[i].len() > 0
}

/// Where the maps, one after another, send `x`.
pub open spec fn locate(ms: Seq<Seq<MapRange>>, x: int) -> int
    decreases ms.len(),
{
    if ms.len() == 0 {
        x
    } else {
        map_fn(ms.last(), locate(ms.drop_last(), x))
    }
}

/// No number on the way of `x` through the maps is the largest `i64`.
pub open spec fn path_fits(ms: Seq<Seq<MapRange>>, x: int) -> bool {
    forall|k: int| 0 <= k < ms.len() ==> #[trigger] locate(ms.take(k), x) < i64::MAX
}

/// The seed numbers read as pairs of a start and a length.
pub open spec fn seed_ranges(seeds: Seq<i64>) -> Seq<Range> {
    Seq::new(seeds.len() / 2, |i: int| Range { start: seeds[2 * i], len: seeds[2 * i + 1] })
}

/// Where the maps send every seed of the seed ranges, in order.
pub open spec fn all_locations(ms: Seq<Seq<MapRange>>, seeds: Seq<i64>) -> Seq<int> {
    flatten(seed_ranges(seeds)).map_values(|v: int| locate(ms, v))
}

proof fn lemma_locate_step(ms: Seq<Seq<MapRange>>, k: int, x: int)
    requires
        0 <= k < ms.len(),
    ensures
        locate(ms.take(k + 1), x) == map_fn(ms[k], locate(ms.take(k), x)),
{
    assert(ms.take(k + 1).drop_last() =~= ms.take(k));
}

/// The numbers of some ranges followed by more ranges are the numbers of
/// the first followed by those of the others.
pub proof fn lemma_flatten_append(a: Seq<Range>, b: Seq<Range>)
    ensures
        flatten(a + b) == flatten(a) + flatten(b),
    decreases a.len(),
{
    if a.len() == 0 {
        assert(a + b =~= b);
        assert(flatten(a) + flatten(b) =~= flatten(b));
    } else {
        lemma_flatten_append(a.drop_first(), b);
        assert((a + b).drop_first() =~= a.drop_first() + b);
        assert(flatten(a + b) =~= flatten(a) + flatten(b));
    }
}

proof fn lemma_flatten_push(a: Seq<Range>, r: Range)
    ensures
        flatten(a.push(r)) == flatten(a) + span(r),
{
    lemma_flatten_append(a, seq![r]);
    assert(a.push(r) =~= a + seq![r]);
    assert(seq![r].drop_first() =~= Seq::<Range>::empty());
    assert(flatten(seq![r].drop_first()) == Seq::<int>::empty());
    assert(seq![r][0] == r);
    assert(flatten(seq![r]) =~= span(r) + Seq::<int>::empty());
    assert(span(r) + Seq::<int>::empty() =~= span(r));
}

/// Every number of ranges that all start at `b` or later is at least `b`.
proof fn lemma_flatten_lower(cs: Seq<Range>, b: int)
    requires
        forall|k: int| 0 <= k < cs.len() ==> #[trigger] cs[k].start >= b,
    ensures
        forall|t: int| 0 <= t < flatten(cs).len() ==> #[trigger] flatten(cs)[t] >= b,
    decreases cs.len(),
{
    if cs.len() > 0 {
        lemma_flatten_lower(cs.drop_first(), b);
        assert(cs[0].start >= b);
        assert forall|t: int| 0 <= t < flatten(cs).len() implies #[trigger] flatten(cs)[t] >= b by {
            if t >= span(cs[0]).len() {
                assert(flatten(cs)[t] == flatten(cs.drop_first())[t - span(cs[0]).len()]);
            }
        }
    }
}

/// The start of a range that is not empty is among the numbers of the
/// ranges.
proof fn lemma_flatten_start(cs: Seq<Range>, k: int)
    requires
        0 <= k < cs.len(),
        cs[k].len >= 1,
    ensures
        flatten(cs).contains(cs[k].start as int),
    decreases k,
{
    if k == 0 {
        assert(flatten(cs)[0] == cs[0].start);
    } else {
        lemma_flatten_start(cs.drop_first(), k - 1);
        let t = choose|t: int| 0 <= t < flatten(cs.drop_first()).len() && flatten(cs.drop_first())[t] == cs[k].start;
        assert(flatten(cs)[span(cs[0]).len() + t] == cs[k].start);
    }
}

/// What `map_range` gives, read number by number, is what `map_single`
/// gives for each number of the range, in order; every piece holds at least
/// one number and ends within `i64`.
pub proof fn lemma_map_range_flat(rs: Seq<MapRange>, r: Range)
    requires
        map_ok(rs),
        r.start + r.len <= i64::MAX,
    ensures
        flatten(pieces(rs, r.start as int, r.len as int)) == span(r).map_values(|v: int| map_fn(rs, v)),
        forall|k: int| 0 <= k < pieces(rs, r.start as int, r.len as int).len() ==> 1
            <= #[trigger] pieces(rs, r.start as int, r.len as int)[k].len
            && pieces(rs, r.start as int, r.len as int)[k].start + pieces(rs, r.start as int, r.len as int)[k].len
            <= i64::MAX,
{
    if r.len <= 0 {
        assert(pieces(rs, r.start as int, r.len as int) =~= Seq::<Range>::empty());
        assert(flatten(Seq::<Range>::empty()) =~= span(r).map_values(|v: int| map_fn(rs, v)));
    } else {
        lemma_pieces(rs, r.start as int, r.len as int);
        assert(flatten(pieces(rs, r.start as int, r.len as int)) =~= span(r).map_values(|v: int| map_fn(rs, v)));
    }
}

impl Input {
    /// Where the maps send one seed.
    pub fn location_for_seed(&self, seed: i64) -> (r: i64)
        requires
            maps_ok(maps_view(self.maps@)),
            path_fits(maps_view(self.maps@), seed as int),
        ensures
            r == locate(maps_view(self.maps@), seed as int),
    {
        let ghost ms = maps_view(self.maps@);
        let mut n = seed;
        let mut k: usize = 0;
        while k < self.maps.len()
            invariant
                ms == maps_view(self.maps@),
                maps_ok(ms),
                path_fits(ms, seed as int),
                0 <= k <= self.maps.len(),
                n == locate(ms.take(k as int), seed as int),
            decreases self.maps.len() - k,
        {
            proof {
                assert(map_ok(ms[k as int]) && ms[k as int].len() > 0);
                assert(ms[k as int] == self.maps@[k as int].ranges@);
                assert(locate(ms.take(k as int), seed as int) < i64::MAX);
                lemma_locate_step(ms, k as int, seed as int);
            }
            n = self.maps[k].map(n);
            k = k + 1;
        }
        proof {
            assert(ms.take(k as int) =~= ms);
        }
        n
    }

    /// The lowest location of any seed.
    pub fn part1(&self) -> (r: i64)
        requires
            self.seeds.len() > 0,
            maps_ok(maps_view(self.maps@)),
            forall|i: int| 0 <= i < self.seeds.len() ==> path_fits(maps_view(self.maps@), #[trigger] self.seeds@[i] as int),
        ensures
            exists|i: int| 0 <= i < self.seeds.len() && r == locate(maps_view(self.maps@), #[trigger] self.seeds@[i] as int),
            forall|i: int| 0 <= i < self.seeds.len() ==> r <= locate(maps_view(self.maps@), #[trigger] self.seeds@[i] as int),
    {
        let ghost ms = maps_view(self.maps@);
        let mut loc = self.location_for_seed(self.seeds[0]);
        let mut i: usize = 0;
        while i < self.seeds.len()
            invariant
                ms == maps_view(self.maps@),
                maps_ok(ms),
                forall|i: int| 0 <= i < self.seeds.len() ==> path_fits(ms, #[trigger] self.seeds@[i] as int),
                0 < self.seeds.len(),
                0 <= i <= self.seeds.len(),
                exists|j: int| 0 <= j < self.seeds.len() && loc == locate(ms, #[trigger] self.seeds@[j] as int),
                forall|j: int| 0 <= j < i ==> loc <= locate(ms, #[trigger] self.seeds@[j] as int),
            decreases self.seeds.len() - i,
        {
            let new_loc = self.location_for_seed(self.seeds[i]);
            if new_loc < loc {
                loc = new_loc;
            }
            i = i + 1;
        }
        loc
    }

    /// The lowest location of any seed of the seed ranges, found by sending
    /// whole ranges through the maps.
    pub fn part2(&self) -> (r: i64)
        requires
            self.maps.len() > 0,
            maps_ok(maps_view(self.maps@)),
            flatten(seed_ranges(self.seeds@)).len() > 0,
            forall|k: int| 0 <= k < seed_ranges(self.seeds@).len() ==> #[trigger] seed_ranges(self.seeds@)[k].start
                + seed_ranges(self.seeds@)[k].len <= i64::MAX,
        ensures
            all_locations(maps_view(self.maps@), self.seeds@).contains(r as int),
            forall|t: int| 0 <= t < all_locations(maps_view(self.maps@), self.seeds@).len() ==> r
                <= #[trigger] all_locations(maps_view(self.maps@), self.seeds@)[t],
    {
        let ghost ms = maps_view(self.maps@);
        let ghost sr = seed_ranges(self.seeds@);
        let mut seeds: Vec<Range> = Vec::new();
        let mut start: i64 = 0;
        let mut i: usize = 0;
        while i < self.seeds.len()
            invariant
                sr == seed_ranges(self.seeds@),
                0 <= i <= self.seeds.len(),
                seeds@ == sr.take(i as int / 2),
                i % 2 == 1 ==> start == self.seeds@[i - 1],
            decreases self.seeds.len() - i,
        {
            if i % 2 == 0 {
                start = self.seeds[i];
            } else {
                let len = self.seeds[i];
                proof {
                    assert(sr[i as int / 2] == Range { start, len });
                    assert(sr.take(i as int / 2).push(Range { start, len }) =~= sr.take((i as int + 1) / 2));
                }
                seeds.push(Range { start, len });
            }
            i = i + 1;
        }
        proof {
            assert(sr.take(i as int / 2) =~= sr);
            assert(flatten(sr).map_values(|v: int| locate(ms.take(0), v)) =~= flatten(sr)) by {
                assert forall|t: int| 0 <= t < flatten(sr).len() implies locate(ms.take(0), flatten(sr)[t]) == flatten(sr)[t] by {
                    assert(ms.take(0).len() == 0);
                }
            }
        }
        let mut current = seeds;
        let mut m: usize = 0;
        while m < self.maps.len()
            invariant
                ms == maps_view(self.maps@),
                maps_ok(ms),
                sr == seed_ranges(self.seeds@),
                0 <= m <= self.maps.len(),
                flatten(current@) == flatten(sr).map_values(|v: int| locate(ms.take(m as int), v)),
                forall|k: int| 0 <= k < current@.len() ==> #[trigger] current@[k].start + current@[k].len <= i64::MAX,
                m > 0 ==> forall|k: int| 0 <= k < current@.len() ==> #[trigger] current@[k].len >= 1,
            decreases self.maps.len() - m,
        {
            let map = &self.maps[m];
            let ghost rs = ms[m as int];
            proof {
                assert(rs == map.ranges@);
                assert(map_ok(rs) && rs.len() > 0);
            }
            let mut next: Vec<Range> = Vec::new();
            let mut j: usize = 0;
            while j < current.len()
                invariant
                    rs == map.ranges@,
                    map_ok(rs),
                    rs.len() > 0,
                    0 <= j <= current.len(),
                    forall|k: int| 0 <= k < current@.len() ==> #[trigger] current@[k].start + current@[k].len <= i64::MAX,
                    flatten(next@) == flatten(current@.take(j as int)).map_values(|v: int| map_fn(rs, v)),
                    forall|k: int| 0 <= k < next@.len() ==> #[trigger] next@[k].len >= 1 && next@[k].start + next@[k].len
                        <= i64::MAX,
                decreases current.len() - j,
            {
                let range = &current[j];
                let mut v = map.map_range(range);
                proof {
                    lemma_map_range_flat(rs, *range);
                    lemma_flatten_append(next@, v@);
                    assert(current@.take(j as int + 1) =~= current@.take(j as int).push(*range));
                    lemma_flatten_push(current@.take(j as int), *range);
                    assert(flatten(next@ + v@) =~= flatten(current@.take(j as int + 1)).map_values(|v: int| map_fn(rs, v)));
                }
                let ghost old_next = next@;
                next.append(&mut v);
                proof {
                    assert forall|k: int| 0 <= k < next@.len() implies #[trigger] next@[k].len >= 1 && next@[k].start
                        + next@[k].len <= i64::MAX by {
                        if k >= old_next.len() {
                            assert(next@[k] == pieces(rs, range.start as int, range.len as int)[k - old_next.len()]);
                        }
                    }
                }
                j = j + 1;
            }
            proof {
                assert(current@.take(j as int) =~= current@);
                assert(flatten(next@) =~= flatten(sr).map_values(|v: int| locate(ms.take(m as int + 1), v))) by {
                    assert forall|t: int| 0 <= t < flatten(sr).len() implies #[trigger] locate(ms.take(m as int + 1), flatten(sr)[t])
                        == map_fn(rs, locate(ms.take(m as int), flatten(sr)[t])) by {
                        lemma_locate_step(ms, m as int, flatten(sr)[t]);
                    }
                }
            }
            current = next;
            m = m + 1;
        }
        proof {
            assert(ms.take(m as int) =~= ms);
            assert(flatten(current@) == all_locations(ms, self.seeds@));
            if current@.len() == 0 {
                assert(flatten(current@) =~= Seq::<int>::empty());
            }
        }
        let mut min_pos = current[0].start;
        let mut k: usize = 0;
        while k < current.len()
            invariant
                0 < current@.len(),
                0 <= k <= current.len(),
                exists|j: int| 0 <= j < current@.len() && min_pos == #[trigger] current@[j].start,
                forall|j: int| 0 <= j < k ==> min_pos <= #[trigger] current@[j].start,
            decreases current.len() - k,
        {
            if current[k].start < min_pos {
                min_pos = current[k].start;
            }
            k = k + 1;
        }
        proof {
            let j = choose|j: int| 0 <= j < current@.len() && min_pos == #[trigger] current@[j].start;
            lemma_flatten_start(current@, j);
            lemma_flatten_lower(current@, min_pos as int);
        }
        min_pos
    }
}
} // verus!
