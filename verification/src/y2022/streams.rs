//! Tuning trouble: find the first position after four distinct characters.
use vstd::prelude::*;
use crate::text::chars_of;

verus! {

/// Errors of this puzzle.
pub enum Error {
    /// The data is shorter than four characters.
    TooShort,
    /// No four consecutive characters are all different.
    NoAnswer,
}

/// The four characters that end just before position `i` are all different.
pub open spec fn distinct4(s: Seq<char>, i: int) -> bool {
    let a = s[i - 4];
    let b = s[i - 3];
    let c = s[i - 2];
    let d = s[i - 1];
    a != b && a != c && a != d && b != c && b != d && c != d
}

/// The number of characters read when the first marker is complete.
pub fn find_marker(data: &str) -> (r: Result<usize, Error>)
    requires
        data.is_ascii(),
    ensures
        data@.len() < 4 ==> r matches Err(Error::TooShort),
        r matches Ok(i) ==> 4 <= i <= data@.len() && distinct4(data@, i as int)
            && forall|j: int| 4 <= j < i ==> !#[trigger] distinct4(data@, j),
        r matches Err(Error::NoAnswer) ==> data@.len() >= 4 && forall|j: int| 4 <= j <= data@.len()
            ==> !#[trigger] distinct4(data@, j),
{
    let v = chars_of(data);
    let n = v.len();
    if n < 4 {
        return Err(Error::TooShort);
    }
    let mut a = v[0];
    let mut b = v[1];
    let mut c = v[2];
    let mut d = v[3];
    let mut i: usize = 4;
    loop
        invariant
            v@ == data@,
            n == v@.len(),
            4 <= i <= n,
            a == v@[i - 4],
            b == v@[i - 3],
            c == v@[i - 2],
            d == v@[i - 1],
            forall|j: int| 4 <= j < i ==> !#[trigger] distinct4(data@, j),
        ensures
            forall|j: int| 4 <= j <= n ==> !#[trigger] distinct4(data@, j),
        decreases n - i,
    {
        if a != b && a != c && a != d && b != c && b != d && c != d {
            return Ok(i);
        }
        if i >= n {
            break;
        }
        a = b;
        b = c;
        c = d;
        d = v[i];
        i = i + 1;
    }
    Err(Error::NoAnswer)
}

} // verus!
