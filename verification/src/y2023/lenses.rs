//! Lens library: the HASH of each step of the initialization sequence, and
//! the boxes of lenses the steps fill.
use vstd::prelude::*;
use vstd::utf8::{encode_scalar, encode_utf8};
use crate::text::{find_char, find_spec, find_str_spec, lemma_find_str, occurs_at, parse_i64, parse_int, split_spec, split_str, str_equal, trim, trimmed, views_of};

verus! {

/// The running total and current hash after `bytes`: a comma adds the hash
/// to the total and starts a new one; newlines are skipped; any other byte
/// is added to the hash, which is then multiplied by 17 and taken modulo
/// 256.
pub open spec fn hash_state(bytes: Seq<u8>) -> (int, int)
    decreases bytes.len(),
{
    if bytes.len() == 0 {
        (0, 0)
    } else {
        let (total, h) = hash_state(bytes.drop_last());
        let b = bytes.last();
        if b == 10 || b == 13 {
            (total, h)
        } else if b == 44 {
            (total + h, 0)
        } else {
            (total, ((h + b) * 17) % 256)
        }
    }
}

/// The sum of the hashes of the comma-separated steps of `bytes`.
pub open spec fn hash_spec(bytes: Seq<u8>) -> int {
    hash_state(bytes).0 + hash_state(bytes).1
}

/// `bytes` holds no comma.
pub open spec fn no_comma(bytes: Seq<u8>) -> bool {
    forall|i: int| 0 <= i < bytes.len() ==> bytes[i] != 44
}

proof fn lemma_hash_state(bytes: Seq<u8>)
    ensures
        0 <= hash_state(bytes).1 < 256,
        0 <= hash_state(bytes).0 <= 255 * bytes.len(),
        no_comma(bytes) ==> hash_state(bytes).0 == 0,
    decreases bytes.len(),
{
    if bytes.len() > 0 {
        let p = bytes.drop_last();
        lemma_hash_state(p);
        assert(no_comma(bytes) ==> no_comma(p)) by {
            if no_comma(bytes) {
                assert forall|i: int| 0 <= i < p.len() implies p[i] != 44 by {
                    assert(p[i] == bytes[i]);
                }
            }
        }
        if no_comma(bytes) {
            assert(bytes[bytes.len() - 1] != 44);
        }
    }
}

/// The HASH of every comma-separated step of `input`, added up; for a
/// single step (no comma) it is below 256.
pub fn hash(input: &str) -> (r: i64)
    requires
        encode_utf8(input@).len() < 0x1_0000_0000,
    ensures
        r == hash_spec(encode_utf8(input@)),
        0 <= r,
        no_comma(encode_utf8(input@)) ==> r < 256,
{
    let bytes = input.as_bytes();
    let mut total: i64 = 0;
    let mut h: i64 = 0;
    let mut i: usize = 0;
    while i < bytes.len()
        invariant
            bytes@ == encode_utf8(input@),
            bytes@.len() < 0x1_0000_0000,
            i <= bytes@.len(),
            (total as int, h as int) == hash_state(bytes@.take(i as int)),
        decreases bytes.len() - i,
    {
        proof {
            lemma_hash_state(bytes@.take(i as int));
            assert(bytes@.take(i + 1).drop_last() =~= bytes@.take(i as int));
            assert(bytes@.take(i + 1).last() == bytes@[i as int]);
        }
        let b = bytes[i] as i64;
        if b == 10 || b == 13 {
        } else if b == 44 {
            total = total + h;
            h = 0;
        } else {
            h = h + b;
            h = h * 17;
            h = h % 256;
        }
        i = i + 1;
    }
    proof {
        assert(bytes@.take(i as int) =~= bytes@);
        lemma_hash_state(bytes@);
    }
    total + h
}

/// No character of `s` is a comma.
pub open spec fn no_comma_char(s: Seq<char>) -> bool {
    forall|i: int| 0 <= i < s.len() ==> s[i] != ','
}

proof fn lemma_scalar_no_comma(c: char)
    requires
        c != ',',
    ensures
        no_comma(encode_scalar(c as u32)),
{
    let v = c as u32;
    assert((0xC0u8 | ((v >> 6) & 0x1F) as u8) != 44u8) by (bit_vector);
    assert((0xE0u8 | ((v >> 12) & 0x0F) as u8) != 44u8) by (bit_vector);
    assert((0xF0u8 | ((v >> 18) & 0x7) as u8) != 44u8) by (bit_vector);
    assert((0x80u8 | (v & 0x3F) as u8) != 44u8) by (bit_vector);
    assert((0x80u8 | ((v >> 6) & 0x3F) as u8) != 44u8) by (bit_vector);
    assert((0x80u8 | ((v >> 12) & 0x3F) as u8) != 44u8) by (bit_vector);
    assert(v <= 0x7F ==> (v & 0x7F) as u8 == v) by (bit_vector);
    assert(v != 44);
}

proof fn lemma_encode_no_comma(s: Seq<char>)
    requires
        no_comma_char(s),
    ensures
        no_comma(encode_utf8(s)),
    decreases s.len(),
{
    if s.len() > 0 {
        assert(no_comma_char(s.drop_first())) by {
            assert forall|i: int| 0 <= i < s.drop_first().len() implies s.drop_first()[i] != ',' by {
                assert(s.drop_first()[i] == s[i + 1]);
            }
        }
        lemma_encode_no_comma(s.drop_first());
        lemma_scalar_no_comma(s[0]);
        let a = encode_scalar(s[0] as u32);
        let b = encode_utf8(s.drop_first());
        assert forall|i: int| 0 <= i < (a + b).len() implies (a + b)[i] != 44 by {
            if i < a.len() {
                assert((a + b)[i] == a[i]);
            } else {
                assert((a + b)[i] == b[i - a.len()]);
            }
        }
    }
}

proof fn lemma_encode_append(a: Seq<char>, b: Seq<char>)
    ensures
        encode_utf8(a + b) == encode_utf8(a) + encode_utf8(b),
    decreases a.len(),
{
    if a.len() == 0 {
        assert(a + b =~= b);
        assert(encode_utf8(a) + encode_utf8(b) =~= encode_utf8(b));
    } else {
        lemma_encode_append(a.drop_first(), b);
        assert((a + b).drop_first() =~= a.drop_first() + b);
        assert((a + b)[0] == a[0]);
        assert(encode_utf8(a + b) =~= encode_utf8(a) + encode_utf8(b));
    }
}

/// A prefix of a string has at most as many bytes.
proof fn lemma_prefix_bytes(s: Seq<char>, i: int)
    requires
        0 <= i <= s.len(),
    ensures
        encode_utf8(s.take(i)).len() <= encode_utf8(s).len(),
        no_comma(encode_utf8(s)) ==> no_comma(encode_utf8(s.take(i))),
{
    lemma_encode_append(s.take(i), s.skip(i));
    assert(s.take(i) + s.skip(i) =~= s);
    let a = encode_utf8(s.take(i));
    let b = encode_utf8(s.skip(i));
    if no_comma(encode_utf8(s)) {
        assert forall|k: int| 0 <= k < a.len() implies a[k] != 44 by {
            assert((a + b)[k] == a[k]);
        }
    }
}

/// The HASH of a label: the box its lens goes in.
pub open spec fn label_hash(label: Seq<char>) -> int {
    hash_spec(encode_utf8(label))
}

/// A box of lenses, each a label and a focal length, in order.
pub struct LensBox {
    pub lenses: Vec<(String, i64)>,
}

/// A box's lenses as labels and focal lengths.
pub open spec fn box_view(b: &LensBox) -> Seq<(Seq<char>, i64)> {
    b.lenses@.map_values(|p: (String, i64)| (p.0@, p.1))
}

/// The first lens with the label.
pub open spec fn label_pos(ls: Seq<(Seq<char>, i64)>, label: Seq<char>) -> Option<int>
    decreases ls.len(),
{
    if ls.len() == 0 {
        None
    } else {
        match label_pos(ls.drop_last(), label) {
            Some(k) => Some(k),
            None => if ls.last().0 == label { Some(ls.len() - 1) } else { None },
        }
    }
}

/// The lenses after putting in a lens: it replaces the focal length of
/// the lens with its label, or else goes last.
pub open spec fn upsert_spec(ls: Seq<(Seq<char>, i64)>, label: Seq<char>, n: i64) -> Seq<(Seq<char>, i64)> {
    match label_pos(ls, label) {
        Some(k) => ls.update(k, (label, n)),
        None => ls.push((label, n)),
    }
}

/// The lenses without those with the label.
pub open spec fn remove_spec(ls: Seq<(Seq<char>, i64)>, label: Seq<char>) -> Seq<(Seq<char>, i64)>
    decreases ls.len(),
{
    if ls.len() == 0 {
        Seq::empty()
    } else if ls.last().0 == label {
        remove_spec(ls.drop_last(), label)
    } else {
        remove_spec(ls.drop_last(), label).push(ls.last())
    }
}

/// Each lens's position (from one) times its focal length, added up.
pub open spec fn box_score(ls: Seq<(Seq<char>, i64)>) -> int
    decreases ls.len(),
{
    if ls.len() == 0 {
        0
    } else {
        box_score(ls.drop_last()) + ls.len() * ls.last().1
    }
}

/// A box small enough to score in `i64`: at most 2^16 lenses with focal
/// lengths within 2^12.
pub open spec fn box_fits(ls: Seq<(Seq<char>, i64)>) -> bool {
    ls.len() <= 0x1_0000 && forall|k: int| 0 <= k < ls.len() ==> -0x1000 <= #[trigger] ls[k].1 <= 0x1000
}

proof fn lemma_label_pos(ls: Seq<(Seq<char>, i64)>, label: Seq<char>)
    ensures
        label_pos(ls, label) matches Some(k) ==> 0 <= k < ls.len() && ls[k].0 == label && forall|j: int| 0 <= j < k ==> ls[j].0 != label,
        label_pos(ls, label) is None ==> forall|j: int| 0 <= j < ls.len() ==> ls[j].0 != label,
    decreases ls.len(),
{
    if ls.len() > 0 {
        let p = ls.drop_last();
        lemma_label_pos(p, label);
        assert forall|j: int| 0 <= j < p.len() implies p[j] == ls[j] by {}
        if label_pos(p, label) is None && ls.last().0 != label {
            assert forall|j: int| 0 <= j < ls.len() implies ls[j].0 != label by {
                if j < p.len() {
                    assert(p[j].0 != label);
                }
            }
        }
    }
}

proof fn lemma_box_score(ls: Seq<(Seq<char>, i64)>)
    requires
        box_fits(ls),
    ensures
        -0x1000 * ls.len() * ls.len() <= box_score(ls) <= 0x1000 * ls.len() * ls.len(),
    decreases ls.len(),
{
    if ls.len() > 0 {
        let p = ls.drop_last();
        assert forall|k: int| 0 <= k < p.len() implies -0x1000 <= #[trigger] p[k].1 <= 0x1000 by {
            assert(p[k] == ls[k]);
        }
        lemma_box_score(p);
        let n = ls.len() as int;
        let f = ls.last().1 as int;
        assert(-0x1000 <= f <= 0x1000);
        assert(-0x1000 * n <= n * f <= 0x1000 * n) by (nonlinear_arith)
            requires
                -0x1000 <= f <= 0x1000,
                0 <= n,
        ;
        assert(0x1000 * (n - 1) * (n - 1) + 0x1000 * n <= 0x1000 * n * n) by (nonlinear_arith)
            requires
                1 <= n,
        ;
        assert(-0x1000 * (n - 1) * (n - 1) - 0x1000 * n >= -0x1000 * n * n) by (nonlinear_arith)
            requires
                1 <= n,
        ;
    }
}

impl LensBox {
    /// An empty box.
    pub fn new() -> (r: LensBox)
        ensures
            box_view(&r) == Seq::<(Seq<char>, i64)>::empty(),
    {
        let r = LensBox { lenses: Vec::new() };
        assert(box_view(&r) =~= Seq::<(Seq<char>, i64)>::empty());
        r
    }

    /// Puts in a lens, replacing the focal length of the lens with its
    /// label, if any.
    pub fn upsert(&mut self, label: &str, n: i64)
        ensures
            box_view(final(self)) == upsert_spec(box_view(old(self)), label@, n),
    {
        let ghost before = box_view(self);
        proof {
            lemma_label_pos(before, label@);
        }
        let mut k: usize = 0;
        while k < self.lenses.len()
            invariant
                before == box_view(self),
                before == box_view(old(self)),
                k <= self.lenses.len(),
                forall|j: int| 0 <= j < k ==> before[j].0 != label@,
            decreases self.lenses.len() - k,
        {
            if str_equal(self.lenses[k].0.as_str(), label) {
                proof {
                    lemma_label_pos(before, label@);
                    let x = label_pos(before, label@);
                    assert(before[k as int].0 == label@);
                    assert(x is Some);
                    if x->0 < k {
                        assert(before[x->0].0 != label@);
                    }
                    if x->0 > k {
                        assert(before[k as int].0 != label@);
                    }
                    assert(x == Some(k as int));
                    assert(upsert_spec(before, label@, n) == before.update(k as int, (label@, n)));
                }
                let s = self.lenses[k].0.clone();
                self.lenses.set(k, (s, n));
                assert(box_view(self) =~= before.update(k as int, (label@, n)));
                return;
            }
            k = k + 1;
        }
        self.lenses.push((label.to_owned(), n));
        assert(box_view(self) =~= before.push((label@, n)));
    }

    /// Takes out every lens with the label.
    pub fn delete(&mut self, label: &str)
        ensures
            box_view(final(self)) == remove_spec(box_view(old(self)), label@),
    {
        let ghost before = box_view(self);
        let mut kept: Vec<(String, i64)> = Vec::new();
        let mut k: usize = 0;
        while k < self.lenses.len()
            invariant
                before == box_view(self),
                k <= self.lenses.len(),
                kept@.map_values(|p: (String, i64)| (p.0@, p.1)) == remove_spec(before.take(k as int), label@),
            decreases self.lenses.len() - k,
        {
            assert(before.take(k + 1).drop_last() =~= before.take(k as int));
            assert(before.take(k + 1).last() == before[k as int]);
            if !str_equal(self.lenses[k].0.as_str(), label) {
                let ghost old_kept = kept@.map_values(|p: (String, i64)| (p.0@, p.1));
                let s = self.lenses[k].0.clone();
                kept.push((s, self.lenses[k].1));
                assert(kept@.map_values(|p: (String, i64)| (p.0@, p.1)) =~= old_kept.push(before[k as int]));
            }
            k = k + 1;
        }
        assert(before.take(k as int) =~= before);
        self.lenses = kept;
    }

    /// Each lens's position (from one) times its focal length, added up.
    pub fn score(&self) -> (r: i64)
        requires
            box_fits(box_view(self)),
        ensures
            r == box_score(box_view(self)),
    {
        let ghost ls = box_view(self);
        let mut total: i64 = 0;
        let mut k: usize = 0;
        while k < self.lenses.len()
            invariant
                ls == box_view(self),
                box_fits(ls),
                k <= self.lenses.len(),
                total == box_score(ls.take(k as int)),
            decreases self.lenses.len() - k,
        {
            let ghost t = ls.take(k + 1);
            assert(t.drop_last() =~= ls.take(k as int));
            assert(t.last() == ls[k as int]);
            assert(ls[k as int].1 == self.lenses@[k as int].1);
            assert(box_score(t) == total + (k + 1) * ls[k as int].1);
            proof {
                assert forall|j: int| 0 <= j < t.len() implies -0x1000 <= #[trigger] t[j].1 <= 0x1000 by {
                    assert(t[j] == ls[j]);
                }
                lemma_box_score(t);
                assert(0x1000 * t.len() * t.len() <= 0x1000 * 0x1_0000 * 0x1_0000) by (nonlinear_arith)
                    requires
                        t.len() <= 0x1_0000,
                ;
                assert(-0x1000 * t.len() * t.len() >= -0x1000 * 0x1_0000 * 0x1_0000) by (nonlinear_arith)
                    requires
                        t.len() <= 0x1_0000,
                ;
                let f = ls[k as int].1 as int;
                assert(-0x1000 * 0x1_0000 <= (k + 1) * f <= 0x1000 * 0x1_0000) by (nonlinear_arith)
                    requires
                        -0x1000 <= f <= 0x1000,
                        k + 1 <= 0x1_0000,
                ;
            }
            let i = (k as i64) + 1;
            assert(i == k + 1);
            let f = self.lenses[k].1;
            let p = i * f;
            assert(p == (k + 1) * ls[k as int].1);
            total = total + p;
            k = k + 1;
        }
        assert(ls.take(k as int) =~= ls);
        total
    }
}

/// What went wrong applying a step.
#[derive(Clone, Copy, PartialEq, Eq, Structural, Debug)]
pub enum ErrorKind {
    InvalidCommand,
    InvalidNumber,
}

/// An error, with the text it is about.
pub struct Error {
    pub kind: ErrorKind,
    pub text: String,
}

pub open spec fn err_view(e: Error) -> (ErrorKind, Seq<char>) {
    (e.kind, e.text@)
}

/// What a step says: `label-` takes out the label's lens, `label=n` puts
/// in a lens of focal length `n`.
pub open spec fn command_spec(cmd: Seq<char>) -> Result<(Seq<char>, Option<i64>), (ErrorKind, Seq<char>)> {
    match find_spec(cmd, '-') {
        Some(i) => Ok((cmd.take(i), None)),
        None => match find_spec(cmd, '=') {
            Some(e) => match parse_int(cmd.skip(e + 1), true, i64::MIN as int, i64::MAX as int) {
                Some(n) => Ok((cmd.take(e), Some(n as i64))),
                None => Err((ErrorKind::InvalidNumber, cmd.skip(e + 1))),
            },
            None => Err((ErrorKind::InvalidCommand, cmd)),
        },
    }
}

/// The 256 boxes of lenses.
pub struct Drawer {
    pub boxes: Vec<LensBox>,
}

pub open spec fn drawer_view(d: &Drawer) -> Seq<Seq<(Seq<char>, i64)>> {
    d.boxes@.map_values(|b: LensBox| box_view(&b))
}

/// The boxes after a step, or what is wrong with it.
pub open spec fn apply_spec(boxes: Seq<Seq<(Seq<char>, i64)>>, cmd: Seq<char>) -> Result<
    Seq<Seq<(Seq<char>, i64)>>,
    (ErrorKind, Seq<char>),
> {
    match command_spec(cmd) {
        Err(e) => Err(e),
        Ok((label, op)) => {
            let b = label_hash(label);
            match op {
                None => Ok(boxes.update(b, remove_spec(boxes[b], label))),
                Some(n) => Ok(boxes.update(b, upsert_spec(boxes[b], label, n))),
            }
        },
    }
}

/// Each box's position (from one) times its score, added up.
pub open spec fn drawer_score(boxes: Seq<Seq<(Seq<char>, i64)>>) -> int
    decreases boxes.len(),
{
    if boxes.len() == 0 {
        0
    } else {
        drawer_score(boxes.drop_last()) + boxes.len() * box_score(boxes.last())
    }
}


impl Drawer {
    /// 256 empty boxes.
    pub fn new() -> (r: Drawer)
        ensures
            drawer_view(&r).len() == 256,
            forall|i: int| 0 <= i < 256 ==> #[trigger] drawer_view(&r)[i] == Seq::<(Seq<char>, i64)>::empty(),
    {
        let mut v: Vec<LensBox> = Vec::new();
        let mut k: usize = 0;
        while k < 256
            invariant
                k <= 256,
                v@.len() == k,
                forall|i: int| 0 <= i < k ==> #[trigger] box_view(&v@[i]) == Seq::<(Seq<char>, i64)>::empty(),
            decreases 256 - k,
        {
            v.push(LensBox::new());
            k = k + 1;
        }
        Drawer { boxes: v }
    }

    /// Applies one step.
    pub fn apply(&mut self, cmd: &str) -> (r: Result<(), Error>)
        requires
            drawer_view(old(self)).len() == 256,
            no_comma_char(cmd@),
            encode_utf8(cmd@).len() < 0x1_0000_0000,
        ensures
            command_spec(cmd@) matches Ok((label, _)) ==> 0 <= label_hash(label) < 256,
            drawer_view(final(self)).len() == 256,
            match apply_spec(drawer_view(old(self)), cmd@) {
                Ok(bs) => r is Ok && drawer_view(final(self)) == bs,
                Err(e) => r matches Err(x) && err_view(x) == e && drawer_view(final(self)) == drawer_view(old(self)),
            },
    {
        let ghost before = drawer_view(self);
        let n = cmd.unicode_len();
        if let Some(i) = find_char(cmd, '-') {
            proof {
                crate::text::lemma_find_in_range(cmd@, '-');
            }
            let label = cmd.substring_char(0, i);
            proof {
                lemma_prefix_bytes(cmd@, i as int);
                lemma_encode_no_comma(cmd@);
                assert(label@ == cmd@.take(i as int));
            }
            let b = hash(label) as usize;
            let mut bx = self.boxes.remove(b);
            bx.delete(label);
            self.boxes.insert(b, bx);
            proof {
                assert(drawer_view(self) =~= before.update(b as int, remove_spec(before[b as int], label@)));
            }
            Ok(())
        } else if let Some(e) = find_char(cmd, '=') {
            proof {
                crate::text::lemma_find_in_range(cmd@, '=');
            }
            let rest = cmd.substring_char(e + 1, n);
            let num = match parse_i64(rest) {
                Some(x) => x,
                None => {
                    return Err(Error { kind: ErrorKind::InvalidNumber, text: rest.to_string() });
                },
            };
            let label = cmd.substring_char(0, e);
            proof {
                lemma_prefix_bytes(cmd@, e as int);
                lemma_encode_no_comma(cmd@);
                assert(label@ == cmd@.take(e as int));
            }
            let b = hash(label) as usize;
            let mut bx = self.boxes.remove(b);
            bx.upsert(label, num);
            self.boxes.insert(b, bx);
            proof {
                assert(drawer_view(self) =~= before.update(b as int, upsert_spec(before[b as int], label@, num)));
            }
            Ok(())
        } else {
            Err(Error { kind: ErrorKind::InvalidCommand, text: cmd.to_string() })
        }
    }
}


/// A drawer small enough to score in `i64`.
pub open spec fn drawer_fits(boxes: Seq<Seq<(Seq<char>, i64)>>) -> bool {
    boxes.len() == 256 && forall|b: int| 0 <= b < 256 ==> box_fits(#[trigger] boxes[b])
}

impl Drawer {
    /// Each box's position (from one) times its score, added up.
    pub fn score(&self) -> (r: i64)
        requires
            drawer_fits(drawer_view(self)),
        ensures
            r == drawer_score(drawer_view(self)),
    {
        let ghost bs = drawer_view(self);
        let mut total: i64 = 0;
        let mut k: usize = 0;
        while k < self.boxes.len()
            invariant
                bs == drawer_view(self),
                drawer_fits(bs),
                k <= self.boxes.len(),
                total == drawer_score(bs.take(k as int)),
                -0x10_0000_0000_0000 * k <= total <= 0x10_0000_0000_0000 * k,
            decreases self.boxes.len() - k,
        {
            let ghost t = bs.take(k + 1);
            assert(t.drop_last() =~= bs.take(k as int));
            assert(t.last() == bs[k as int]);
            assert(bs[k as int] == box_view(&self.boxes@[k as int]));
            proof {
                assert(box_fits(bs[k as int]));
                lemma_box_score(bs[k as int]);
                let l = bs[k as int].len() as int;
                assert(0x1000 * l * l <= 0x1000 * 0x1_0000 * 0x1_0000) by (nonlinear_arith)
                    requires
                        0 <= l <= 0x1_0000,
                ;
                assert(-0x1000 * l * l >= -0x1000 * 0x1_0000 * 0x1_0000) by (nonlinear_arith)
                    requires
                        0 <= l <= 0x1_0000,
                ;
            }
            if self.boxes[k].lenses.len() > 0 {
                let s = self.boxes[k].score();
                let i = (k as i64) + 1;
                assert(i == k + 1);
                assert(-0x10_0000_0000_0000 <= i * s <= 0x10_0000_0000_0000) by (nonlinear_arith)
                    requires
                        -0x1000_0000_0000 <= s <= 0x1000_0000_0000,
                        i == k + 1,
                        0 <= k < 256,
                ;
                total = total + i * s;
            } else {
                assert(bs[k as int] =~= Seq::<(Seq<char>, i64)>::empty());
                assert(box_score(bs[k as int]) == 0);
            }
            proof {
                assert(drawer_score(t) == drawer_score(bs.take(k as int)) + (k + 1) * box_score(bs[k as int]));
                assert(-0x10_0000_0000_0000 * (k + 1) <= total <= 0x10_0000_0000_0000 * (k + 1));
            }
            k = k + 1;
        }
        assert(bs.take(k as int) =~= bs);
        total
    }
}

proof fn lemma_split_no_comma(s: Seq<char>)
    ensures
        forall|k: int| 0 <= k < split_spec(s, ","@).len() ==> no_comma_char(#[trigger] split_spec(s, ","@)[k]),
    decreases s.len(),
{
    reveal(split_spec);
    reveal_strlit(",");
    let sep = ","@;
    assert(sep.len() == 1 && sep[0] == ',');
    lemma_find_str(s, sep);
    match find_str_spec(s, sep) {
        None => {
            assert forall|j: int| 0 <= j < s.len() implies s[j] != ',' by {
                if s[j] == ',' {
                    assert(s.subrange(j, j + 1) =~= sep);
                    assert(occurs_at(s, sep, j));
                }
            }
            assert(split_spec(s, sep) == seq![s]);
        },
        Some(i) => {
            if 0 <= i && i + sep.len() <= s.len() {
                lemma_split_no_comma(s.skip(i + 1));
                assert forall|j: int| 0 <= j < i implies s.take(i)[j] != ',' by {
                    if s[j] == ',' {
                        assert(s.subrange(j, j + 1) =~= sep);
                        assert(occurs_at(s, sep, j));
                    }
                }
                let rest = split_spec(s.skip(i + 1), sep);
                assert(split_spec(s, sep) == seq![s.take(i)] + rest);
                assert forall|k: int| 0 <= k < split_spec(s, sep).len() implies no_comma_char(#[trigger] split_spec(s, sep)[k]) by {
                    if k > 0 {
                        assert(split_spec(s, sep)[k] == rest[k - 1]);
                    }
                }
            }
        },
    }
}

/// The steps of the initialization sequence: `input` trimmed, cut at
/// commas.
pub open spec fn steps_of(input: Seq<char>) -> Seq<Seq<char>> {
    split_spec(trimmed(input), ","@)
}

/// The drawer after the first `k` steps, from empty boxes, or the first
/// step that is wrong.
pub open spec fn run_spec(cmds: Seq<Seq<char>>, k: nat) -> Result<Seq<Seq<(Seq<char>, i64)>>, (ErrorKind, Seq<char>)>
    decreases k,
{
    if k == 0 {
        Ok(Seq::new(256, |i: int| Seq::<(Seq<char>, i64)>::empty()))
    } else {
        match run_spec(cmds, (k - 1) as nat) {
            Err(e) => Err(e),
            Ok(bs) => apply_spec(bs, cmds[k - 1]),
        }
    }
}

/// The steps are few enough, each short enough, and their focal lengths
/// small enough, that the score fits in `i64`.
pub open spec fn steps_fit(cmds: Seq<Seq<char>>) -> bool {
    &&& cmds.len() <= 0x1_0000
    &&& forall|k: int| 0 <= k < cmds.len() ==> encode_utf8(#[trigger] cmds[k]).len() < 0x1_0000_0000
    &&& forall|k: int| 0 <= k < cmds.len() ==> (#[trigger] command_spec(cmds[k]) matches Ok((_, Some(n))) ==> -0x1000 <= n
        <= 0x1000)
}

proof fn lemma_remove_fits(ls: Seq<(Seq<char>, i64)>, label: Seq<char>)
    ensures
        remove_spec(ls, label).len() <= ls.len(),
        forall|j: int| 0 <= j < remove_spec(ls, label).len() ==> exists|i: int| 0 <= i < ls.len() && #[trigger] remove_spec(ls, label)[j] == ls[i],
    decreases ls.len(),
{
    if ls.len() > 0 {
        let p = ls.drop_last();
        lemma_remove_fits(p, label);
        let r = remove_spec(ls, label);
        let rp = remove_spec(p, label);
        assert forall|j: int| 0 <= j < r.len() implies exists|i: int| 0 <= i < ls.len() && #[trigger] r[j] == ls[i] by {
            if j < rp.len() {
                let i = choose|i: int| 0 <= i < p.len() && rp[j] == p[i];
                assert(r[j] == rp[j]);
                assert(ls[i] == p[i]);
            } else {
                assert(r[j] == ls.last());
                assert(ls[ls.len() - 1] == ls.last());
            }
        }
    }
}

/// The score of the boxes after every step.
pub fn part2(input: &str) -> (r: Result<i64, Error>)
    requires
        steps_fit(steps_of(input@)),
    ensures
        match run_spec(steps_of(input@), steps_of(input@).len()) {
            Ok(bs) => r matches Ok(v) && v == drawer_score(bs),
            Err(e) => r matches Err(x) && err_view(x) == e,
        },
{
    let t = trim(input);
    let sep = ",";
    proof {
        reveal_strlit(",");
    }
    let cmds = split_str(t, sep);
    let ghost cs = views_of(cmds@);
    proof {
        assert(cs == steps_of(input@));
        lemma_split_no_comma(t@);
    }
    let mut drawer = Drawer::new();
    proof {
        assert(drawer_view(&drawer) =~= Seq::new(256, |i: int| Seq::<(Seq<char>, i64)>::empty()));
    }
    let mut k: usize = 0;
    while k < cmds.len()
        invariant
            cs == views_of(cmds@),
            cs == steps_of(input@),
            steps_fit(cs),
            forall|j: int| 0 <= j < cs.len() ==> no_comma_char(#[trigger] cs[j]),
            k <= cmds.len(),
            run_spec(cs, k as nat) == Ok::<Seq<Seq<(Seq<char>, i64)>>, (ErrorKind, Seq<char>)>(drawer_view(&drawer)),
            drawer_view(&drawer).len() == 256,
            forall|b: int| 0 <= b < 256 ==> #[trigger] drawer_view(&drawer)[b].len() <= k && forall|j: int| 0 <= j < drawer_view(&drawer)[b].len()
                ==> -0x1000 <= #[trigger] drawer_view(&drawer)[b][j].1 <= 0x1000,
        decreases cmds.len() - k,
    {
        let ghost before = drawer_view(&drawer);
        proof {
            assert(cs[k as int] == cmds@[k as int]@);
            assert(no_comma_char(cs[k as int]));
        }
        match drawer.apply(cmds[k].as_str()) {
            Err(e) => {
                proof {
                    lemma_run_error(cs, k as nat + 1, cs.len());
                }
                return Err(e);
            },
            Ok(()) => {},
        }
        proof {
            let after = drawer_view(&drawer);
            let (label, op) = command_spec(cs[k as int])->Ok_0;
            let b = label_hash(label);
            assert forall|c: int| 0 <= c < 256 implies #[trigger] after[c].len() <= k + 1 && forall|j: int| 0 <= j < after[c].len()
                ==> -0x1000 <= #[trigger] after[c][j].1 <= 0x1000 by {
                if c == b {
                    match op {
                        None => {
                            lemma_remove_fits(before[c], label);
                            assert forall|j: int| 0 <= j < after[c].len() implies -0x1000 <= #[trigger] after[c][j].1 <= 0x1000 by {
                                let i = choose|i: int| 0 <= i < before[c].len() && after[c][j] == before[c][i];
                            }
                        },
                        Some(n) => {
                            assert(command_spec(cs[k as int]) matches Ok((_, Some(m))) ==> -0x1000 <= m <= 0x1000);
                            lemma_label_pos(before[c], label);
                            assert forall|j: int| 0 <= j < after[c].len() implies -0x1000 <= #[trigger] after[c][j].1 <= 0x1000 by {
                                if j < before[c].len() && after[c][j] == before[c][j] {
                                } else {
                                    assert(after[c][j].1 == n);
                                }
                            }
                        },
                    }
                } else {
                    assert(after[c] == before[c]);
                }
            }
        }
        k = k + 1;
    }
    proof {
        assert(cs.len() <= 0x1_0000);
        assert forall|b: int| 0 <= b < 256 implies box_fits(#[trigger] drawer_view(&drawer)[b]) by {
            assert(drawer_view(&drawer)[b].len() <= k);
        }
    }
    Ok(drawer.score())
}

proof fn lemma_run_error(cmds: Seq<Seq<char>>, k: nat, n: nat)
    requires
        k <= n,
        run_spec(cmds, k) is Err,
    ensures
        run_spec(cmds, n) == run_spec(cmds, k),
    decreases n - k,
{
    if k < n {
        lemma_run_error(cmds, k, (n - 1) as nat);
    }
}
} // verus!
