//! The signature comparison of an old move with the new one, as a number.
use vstd::prelude::*;
use crate::signature::{key_order, rows_fit, sig_cmp_with};
use std::cmp::Ordering;

verus! {

/// The signature order of old move `i` against the new move `k` in the
/// first `k + 1` rows.
pub open spec fn new_order(rows: Seq<u16>, k: usize, od: [u8; 16], id: [u8; 16], i: usize) -> int {
    key_order(rows, k + 1, od@, id@, i as int, k as int)
}

/// The first `k + 1` rows name no move past `k`.
pub open spec fn rows_fit_next(rows: Seq<u16>, k: usize) -> bool {
    rows_fit(rows, (k + 1) as usize)
}

/// `-1`, `0` or `1` as old move `i` has a smaller, equal or larger signature
/// than the new move `k` in the first `k + 1` rows.
pub fn compare_with_new(rows: &[u16; 16], k: usize, od: &[u8; 16], id: &[u8; 16], i: usize, Ghost(rv): Ghost<Seq<u16>>) -> (r: i8)
    requires
        k < 16,
        i < k,
        rv == rows@,
        rows_fit_next(rv, k),
    ensures
        (r < 0) == (new_order(rv, k, *od, *id, i) < 0),
        (r == 0) == (new_order(rv, k, *od, *id, i) == 0),
        (r > 0) == (new_order(rv, k, *od, *id, i) > 0),
{
    let c = sig_cmp_with(rows, k + 1, od, id, i, k);
    match c {
        Ordering::Less => -1,
        Ordering::Equal => 0,
        Ordering::Greater => 1,
    }
}

} // verus!
