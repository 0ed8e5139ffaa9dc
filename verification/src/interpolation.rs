//! Lookup of a query among increasing abscissae.
//!
//! A lookup finds the segment of a piecewise-linear curve that a query falls
//! into and says which curve values the caller has to blend. It remembers
//! where it stopped, so that a run of queries walks the abscissae once.

use crate::buffer::{contents, length, sample_at};
use crate::error::KernelError;
use vstd::prelude::*;

verus! {

/// Where a query lies among the abscissae that were searched.
#[derive(Clone, Copy, Debug, PartialEq, Eq, Structural)]
pub enum Lookup {
    /// Before the first abscissa: the curve takes its lower boundary value.
    Lower,
    /// Between the abscissae at `left` and `right`, which are neighbours: the
    /// curve is blended from its values there.
    Between { left: usize, right: usize },
    /// Before none of the abscissae searched: the curve takes its upper
    /// boundary value.
    Upper,
}

/// The first index from `start` up to `end` whose abscissa exceeds `v`, or
/// `end` if there is none.
pub open spec fn first_above(v: i64, x: Seq<i64>, start: int, end: int) -> int
    decreases end - start,
{
    if start >= end {
        end
    } else if v < x[start] {
        start
    } else {
        first_above(v, x, start + 1, end)
    }
}

/// What a search that stopped at `found` answers.
pub open spec fn lookup_at(found: int, end: int) -> Lookup {
    if found >= end {
        Lookup::Upper
    } else if found == 0 {
        Lookup::Lower
    } else {
        Lookup::Between { left: (found - 1) as usize, right: found as usize }
    }
}

/// Where the search after one that stopped at `found` begins: behind the
/// abscissa found, or at the front again once nothing was found.
pub open spec fn next_start(found: int, end: int) -> int {
    if found >= end {
        0
    } else {
        found + 1
    }
}

/// The search reads the abscissae from `start` up to `end` and nothing else.
pub open spec fn searchable(x: Seq<i64>, start: int, end: int) -> bool {
    0 <= start <= end <= x.len()
}

/// A search stops inside the range it was given, or at its end.
pub proof fn lemma_first_above_in_range(v: i64, x: Seq<i64>, start: int, end: int)
    requires
        start <= end,
    ensures
        start <= first_above(v, x, start, end) <= end,
    decreases end - start,
{
    if start < end && !(v < x[start]) {
        lemma_first_above_in_range(v, x, start + 1, end);
    }
}

/// Looks `v` up among the abscissae from `start` up to `end`, and says
/// where the next search begins.
pub(crate) fn locate(v: i64, x: &safer_ffi::Vec<i64>, start: usize, end: usize) -> (out: (
    Lookup,
    usize,
))
    requires
        searchable(contents(*x), start as int, end as int),
    ensures
        out.0 == lookup_at(first_above(v, contents(*x), start as int, end as int), end as int),
        out.1 == next_start(first_above(v, contents(*x), start as int, end as int), end as int),
    no_unwind
{
    let mut i: usize = start;
    while i < end
        invariant
            start <= i <= end <= contents(*x).len(),
            first_above(v, contents(*x), start as int, end as int) == first_above(
                v,
                contents(*x),
                i as int,
                end as int,
            ),
        decreases end - i,
    {
        if v < sample_at(x, i) {
            if i == 0 {
                return (Lookup::Lower, i + 1);
            }
            return (Lookup::Between { left: i - 1, right: i }, i + 1);
        }
        i = i + 1;
    }
    (Lookup::Upper, 0)
}

/// Looks `v` up among the abscissae `x[start_x..end_x]`.
///
/// The answer names the first abscissa that exceeds `v`: [`Lookup::Lower`] if
/// that is the very first of `x`, [`Lookup::Between`] it and its left
/// neighbour otherwise, and [`Lookup::Upper`] if no abscissa searched exceeds
/// `v`. `start_x` moves behind the abscissa found, and back to the front once
/// nothing was found. A range that does not lie within `x` is refused and
/// leaves `start_x` alone.
pub fn interpolate1d(v: i64, x: &safer_ffi::Vec<i64>, start_x: &mut usize, end_x: usize) -> (r:
    Result<Lookup, KernelError>)
    ensures
        searchable(contents(*x), *old(start_x) as int, end_x as int) ==> {
            let found = first_above(v, contents(*x), *old(start_x) as int, end_x as int);
            &&& r == Ok::<Lookup, KernelError>(lookup_at(found, end_x as int))
            &&& *final(start_x) == next_start(found, end_x as int)
        },
        !searchable(contents(*x), *old(start_x) as int, end_x as int) ==> {
            &&& r == Err::<Lookup, KernelError>(KernelError::InvalidArgument)
            &&& *final(start_x) == *old(start_x)
        },
    no_unwind
{
    if *start_x > end_x || end_x > length(x) {
        return Err(KernelError::InvalidArgument);
    }
    let (lookup, next) = locate(v, x, *start_x, end_x);
    *start_x = next;
    Ok(lookup)
}

} // verus!
