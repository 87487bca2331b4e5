//! Slicing a listing the way `iter().skip(offset).take(limit)` does.
use vstd::prelude::*;

verus! {

/// What `skip(off).take(lim)` leaves of `s`.
pub open spec fn skip_take<T>(s: Seq<T>, off: int, lim: int) -> Seq<T> {
    let lo = if off < s.len() { off } else { s.len() as int };
    let hi = if off + lim < s.len() { off + lim } else { s.len() as int };
    s.subrange(lo, if hi < lo { lo } else { hi })
}

/// Keeps the part of `v` that `skip(off).take(lim)` keeps.
pub fn keep_page<T>(v: Vec<T>, off: usize, lim: usize) -> (r: Vec<T>)
    ensures
        r@ == skip_take(v@, off as int, lim as int),
{
    let ghost s = v@;
    let mut v = v;
    let n = v.len();
    if off >= n {
        return Vec::new();
    }
    let mut rest = v.split_off(off);
    if lim < rest.len() {
        rest.truncate(lim);
    }
    assert(rest@ =~= skip_take(s, off as int, lim as int));
    rest
}

/// Keeps the part of `v` that `skip(off).take(lim)` keeps, for 64-bit bounds.
pub fn keep_page_u64<T>(v: Vec<T>, off: u64, lim: u64) -> (r: Vec<T>)
    ensures
        r@ == skip_take(v@, off as int, lim as int),
{
    let ghost s = v@;
    let mut v = v;
    let n = v.len();
    if off >= n as u64 {
        return Vec::new();
    }
    let start = off as usize;
    let mut rest = v.split_off(start);
    if lim < rest.len() as u64 {
        rest.truncate(lim as usize);
    }
    assert(rest@ =~= skip_take(s, off as int, lim as int));
    rest
}

} // verus!
