use vstd::prelude::*;

verus! {

/// Relies on rand's `random_range` over an integer range: a uniformly chosen
/// integer at least `lo` and below `hi`.
#[verifier::external_body]
pub(crate) fn rand_range(lo: i64, hi: i64) -> (r: i64)
    requires
        lo < hi,
    ensures
        lo <= r < hi,
{
    rand::random_range(lo..hi)
}

/// A uniformly chosen index below `n`.
pub(crate) fn rand_below(n: usize) -> (r: usize)
    requires
        0 < n,
    ensures
        r < n,
{
    let cap: usize = if n > 0x7fff_ffff {
        0x7fff_ffff
    } else {
        n
    };
    rand_range(0, cap as i64) as usize
}

/// Relies on `String`'s `FromIterator` over characters: collecting yields the
/// string of exactly those characters in order.
#[verifier::external_body]
pub(crate) fn chars_to_string(v: &Vec<char>) -> (s: String)
    ensures
        s@ == v@,
{
    v.iter().collect()
}

/// Whether two strings hold the same characters.
pub(crate) fn str_eq(a: &str, b: &str) -> (r: bool)
    ensures
        r == (a@ == b@),
{
    let aa = String::from_str(a);
    let bs = String::from_str(b);
    aa == bs
}

} // verus!
