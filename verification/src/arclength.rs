//! The search behind arc-length parameterization.
//!
//! A lookup table pairs curve parameters with the arc length reached there,
//! in increasing order. To find the parameter for an arc length `s`, the
//! table is searched by bisection for the two neighbouring entries whose
//! lengths enclose `s`; the caller then interpolates between them. The test
//! "this entry's length is below `s`" is the caller's `below`.
use vstd::prelude::*;

verus! {

/// The test may be called on any entry.
pub open spec fn total_test<E, F: Fn(E) -> bool>(below: F) -> bool {
    forall|e: E| call_requires(below, (e,))
}

/// The test holds of exactly the first `m` entries of `table` (as in a table
/// sorted by length, where the entries below `s` come first).
pub open spec fn splits_at<E, F: Fn(E) -> bool>(below: F, table: Seq<E>, m: int) -> bool {
    &&& 0 <= m <= table.len()
    &&& forall|i: int, r: bool|
        0 <= i < table.len() && #[trigger] call_ensures(below, (table[i],), r) ==> (r <==> i < m)
}

/// The index of the first entry of the segment that bisection settles on,
/// for a test that holds of the first `m` entries of a table of `len` ones:
/// the last entry below `s`, kept within the table's segments.
pub open spec fn segment_for(len: int, m: int) -> int {
    if m == 0 {
        0
    } else if m >= len - 1 {
        len - 2
    } else {
        m - 1
    }
}

/// Find by bisection the segment `[lo, lo + 1]` of `table` that encloses
/// the searched length, and return `lo`. Bisection starts from the whole
/// table and keeps an entry below the searched length at `lo` (or the first
/// entry) and one not below it at `lo + 1` (or the last entry).
pub fn find_segment<E: Copy, F: Fn(E) -> bool>(table: &[E], below: F) -> (lo: usize)
    requires
        table@.len() >= 2,
        total_test(below),
    ensures
        lo + 1 < table@.len(),
        lo == 0 || call_ensures(below, (table@[lo as int],), true),
        lo + 2 == table@.len() || call_ensures(below, (table@[lo + 1],), false),
        forall|m: int| #[trigger] splits_at(below, table@, m) ==> lo == segment_for(table@.len() as int, m),
{
    let mut lo: usize = 0;
    let mut hi: usize = table.len() - 1;
    while lo + 1 < hi
        invariant
            total_test(below),
            lo < hi,
            hi + 1 == table@.len() || call_ensures(below, (table@[hi as int],), false),
            hi < table@.len(),
            lo == 0 || call_ensures(below, (table@[lo as int],), true),
        decreases hi - lo,
    {
        let mid = lo + (hi - lo) / 2;
        if below(table[mid]) {
            lo = mid;
        } else {
            hi = mid;
        }
    }
    proof {
        assert forall|m: int| #[trigger] splits_at(below, table@, m) implies lo == segment_for(
            table@.len() as int,
            m,
        ) by {
            if lo > 0 {
                assert(call_ensures(below, (table@[lo as int],), true));
            }
            if lo + 2 != table@.len() {
                assert(call_ensures(below, (table@[lo + 1],), false));
            }
        }
    }
    lo
}

} // verus!
