//! Selection of an order statistic by partial sorting.
//!
//! [`select_in_place`] narrows a range around the wanted rank by partitioning
//! about the median of three samples. It gives up after a fixed number of
//! rounds; [`settles_within_rounds`] names the buffers for which it provably
//! never does.

use crate::buffer::{contents, exchange, length, sample_at};
use crate::order::{
    exchanged, lemma_exchanged_same_samples, lemma_greatest_is_last, lemma_least_is_first,
    lemma_settled_is_order_statistic, order_statistic, same_samples, settled,
};
use vstd::prelude::*;

verus! {

/// The number of partition rounds after which selection gives up.
pub const SELECTION_ROUNDS: usize = 100;

/// The sample selection hands back when it gives up.
pub const UNSETTLED: i64 = 0;

/// Every round takes at least two positions out of the range, so a buffer of
/// at most twice [`SELECTION_ROUNDS`] samples is always settled in time.
pub open spec fn settles_within_rounds(len: nat) -> bool {
    len <= 2 * SELECTION_ROUNDS
}

/// The rank that selection answers for: ranks before the first position
/// count as the first, ranks past the last as the last.
pub open spec fn nearest_rank(rank: int, len: nat) -> int {
    if rank <= 0 {
        0
    } else if rank >= len - 1 {
        len - 1
    } else {
        rank
    }
}

/// Nothing before `low` exceeds anything from `low` on, and nothing up to
/// `high` exceeds anything after `high`.
pub open spec fn fenced(s: Seq<i64>, low: int, high: int) -> bool {
    &&& forall|i: int, j: int| 0 <= i < low && low <= j < s.len() ==> #[trigger] s[i] <= #[trigger] s[j]
    &&& forall|i: int, j: int| 0 <= i <= high && high < j < s.len() ==> #[trigger] s[i] <= #[trigger] s[j]
}

/// `t` differs from `s` only at positions from `low` to `high`.
pub open spec fn same_outside(s: Seq<i64>, t: Seq<i64>, low: int, high: int) -> bool {
    &&& s.len() == t.len()
    &&& forall|i: int| 0 <= i < s.len() && (i < low || high < i) ==> #[trigger] t[i] == s[i]
}

/// Exchanging two positions inside a fenced range keeps the fences, the
/// samples, and everything outside the range.
proof fn lemma_exchange_inside(s: Seq<i64>, low: int, high: int, p: int, q: int)
    requires
        fenced(s, low, high),
        0 <= low <= p <= high < s.len(),
        low <= q <= high,
    ensures
        fenced(exchanged(s, p, q), low, high),
        same_samples(exchanged(s, p, q), s),
        same_outside(s, exchanged(s, p, q), low, high),
{
    lemma_exchanged_same_samples(s, p, q);
    let t = exchanged(s, p, q);
    assert forall|i: int, j: int| 0 <= i < low && low <= j < t.len() implies #[trigger] t[i]
        <= #[trigger] t[j] by {
        assert(t[i] == s[i]);
        assert(t[j] == s[j] || t[j] == s[p] || t[j] == s[q]);
    }
    assert forall|i: int, j: int| 0 <= i <= high && high < j < t.len() implies #[trigger] t[i]
        <= #[trigger] t[j] by {
        assert(t[j] == s[j]);
        assert(t[i] == s[i] || t[i] == s[p] || t[i] == s[q]);
    }
}

/// A position outside a fenced range that was settled stays settled when
/// only the range is rearranged.
proof fn lemma_settled_outside(s: Seq<i64>, t: Seq<i64>, low: int, high: int, rank: int)
    requires
        settled(s, rank),
        rank < low || high < rank,
        0 <= low,
        high < s.len(),
        same_outside(s, t, low, high),
        fenced(t, low, high),
    ensures
        settled(t, rank),
{
    assert(t[rank] == s[rank]);
    assert forall|i: int| 0 <= i < rank implies #[trigger] t[i] <= t[rank] by {
        if i < low || high < i {
            assert(t[i] == s[i]);
        }
    }
    assert forall|j: int| rank < j < t.len() implies t[rank] <= #[trigger] t[j] by {
        if j < low || high < j {
            assert(t[j] == s[j]);
        }
    }
}

/// The lowest sample of a buffer, found by one pass over it.
fn least(data: &safer_ffi::Vec<i64>) -> (r: i64)
    requires
        contents(*data).len() >= 1,
    ensures
        r == order_statistic(contents(*data), 0),
    no_unwind
{
    let n: usize = length(data);
    let mut best: i64 = sample_at(data, 0);
    let ghost mut at: int = 0;
    let mut i: usize = 1;
    while i < n
        invariant
            n == contents(*data).len(),
            1 <= i <= n,
            0 <= at < i,
            best == contents(*data)[at],
            forall|k: int| 0 <= k < i ==> best <= #[trigger] contents(*data)[k],
        decreases n - i,
    {
        let x: i64 = sample_at(data, i);
        if x < best {
            best = x;
            proof {
                at = i as int;
            }
        }
        i = i + 1;
    }
    proof {
        lemma_least_is_first(contents(*data), at);
    }
    best
}

/// The highest sample of a buffer, found by one pass over it.
fn greatest(data: &safer_ffi::Vec<i64>) -> (r: i64)
    requires
        contents(*data).len() >= 1,
    ensures
        r == order_statistic(contents(*data), contents(*data).len() - 1),
    no_unwind
{
    let n: usize = length(data);
    let mut best: i64 = sample_at(data, 0);
    let ghost mut at: int = 0;
    let mut i: usize = 1;
    while i < n
        invariant
            n == contents(*data).len(),
            1 <= i <= n,
            0 <= at < i,
            best == contents(*data)[at],
            forall|k: int| 0 <= k < i ==> #[trigger] contents(*data)[k] <= best,
        decreases n - i,
    {
        let x: i64 = sample_at(data, i);
        if x > best {
            best = x;
            proof {
                at = i as int;
            }
        }
        i = i + 1;
    }
    proof {
        lemma_greatest_is_last(contents(*data), at);
    }
    best
}

/// Partitions the range from `low` to `high` about the sample at `low + 1`.
///
/// Returns `(begin, end)`: the pivot ends up at `end`, nothing from `low` up
/// to `begin` exceeds it, and nothing after `end` up to `high` falls below
/// it.
fn partition(data: &mut safer_ffi::Vec<i64>, low: usize, high: usize) -> (cut: (usize, usize))
    requires
        low + 1 < high < contents(*old(data)).len(),
        contents(*old(data))[low as int] <= contents(*old(data))[low + 1],
        contents(*old(data))[low + 1] <= contents(*old(data))[high as int],
        fenced(contents(*old(data)), low as int, high as int),
    ensures
        same_samples(contents(*final(data)), contents(*old(data))),
        same_outside(contents(*old(data)), contents(*final(data)), low as int, high as int),
        fenced(contents(*final(data)), low as int, high as int),
        low + 2 <= cut.0 <= high,
        low + 1 <= cut.1 <= high - 1,
        cut.1 < cut.0,
        forall|i: int|
            low <= i < cut.0 ==> #[trigger] contents(*final(data))[i] <= contents(*final(data))[cut.1 as int],
        forall|j: int|
            cut.1 < j <= high ==> contents(*final(data))[cut.1 as int] <= #[trigger] contents(
                *final(data),
            )[j],
    no_unwind
{
    let ghost entry = contents(*data);
    let low1: usize = low + 1;
    let pivot: i64 = sample_at(data, low1);
    let mut begin: usize = low1;
    let mut end: usize = high;
    loop
        invariant_except_break
            low1 <= begin <= end <= high,
            low + 2 <= end,
            begin < end || end < high,
            forall|i: int| low1 <= i <= begin ==> #[trigger] contents(*data)[i] <= pivot,
            forall|j: int| end <= j <= high ==> pivot <= #[trigger] contents(*data)[j],
        invariant
            low1 == low + 1,
            low1 < high < contents(*data).len(),
            contents(*data).len() == entry.len(),
            contents(*data)[low1 as int] == pivot,
            contents(*data)[low as int] <= pivot,
            same_samples(contents(*data), entry),
            same_outside(entry, contents(*data), low as int, high as int),
            fenced(contents(*data), low as int, high as int),
        ensures
            low + 2 <= begin <= high,
            low1 <= end <= high - 1,
            end < begin,
            forall|i: int| low1 <= i < begin ==> #[trigger] contents(*data)[i] <= pivot,
            forall|j: int| end < j <= high ==> pivot <= #[trigger] contents(*data)[j],
            contents(*data)[end as int] <= pivot,
        decreases end - begin,
    {
        let ghost sentinel: int = if begin < end {
            end as int
        } else {
            end + 1
        };
        let ghost begin_before: int = begin as int;
        let ghost end_before: int = end as int;
        begin = begin + 1;
        while sample_at(data, begin) < pivot
            invariant
                begin_before < begin,
                low + 2 <= begin <= sentinel <= high,
                high < contents(*data).len(),
                pivot <= contents(*data)[sentinel],
                forall|i: int| low1 <= i < begin ==> #[trigger] contents(*data)[i] <= pivot,
            decreases sentinel - begin,
        {
            begin = begin + 1;
        }
        end = end - 1;
        while sample_at(data, end) > pivot
            invariant
                end < end_before,
                low1 <= end <= high - 1,
                low1 == low + 1,
                high < contents(*data).len(),
                contents(*data)[low1 as int] == pivot,
                forall|j: int| end < j <= high ==> pivot <= #[trigger] contents(*data)[j],
            decreases end,
        {
            end = end - 1;
        }
        if end < begin {
            break ;
        }
        proof {
            lemma_exchange_inside(contents(*data), low as int, high as int, begin as int, end as int);
        }
        exchange(data, begin, end);
    }
    proof {
        lemma_exchange_inside(contents(*data), low as int, high as int, low1 as int, end as int);
    }
    exchange(data, low1, end);
    (begin, end)
}

/// Orders the samples at `low`, `low + 1` and `high` after moving the middle
/// of the range to `low + 1`, so that the sample at `low + 1` can serve as
/// pivot with a guard on either side.
fn median_of_three(data: &mut safer_ffi::Vec<i64>, low: usize, high: usize)
    requires
        low + 1 < high < contents(*old(data)).len(),
        fenced(contents(*old(data)), low as int, high as int),
    ensures
        same_samples(contents(*final(data)), contents(*old(data))),
        same_outside(contents(*old(data)), contents(*final(data)), low as int, high as int),
        fenced(contents(*final(data)), low as int, high as int),
        contents(*final(data))[low as int] <= contents(*final(data))[low + 1],
        contents(*final(data))[low + 1] <= contents(*final(data))[high as int],
    no_unwind
{
    let low1: usize = low + 1;
    let middle: usize = low + (high - low) / 2;
    proof {
        lemma_exchange_inside(contents(*data), low as int, high as int, middle as int, low1 as int);
    }
    exchange(data, middle, low1);
    if sample_at(data, low) > sample_at(data, high) {
        proof {
            lemma_exchange_inside(contents(*data), low as int, high as int, low as int, high as int);
        }
        exchange(data, low, high);
    }
    if sample_at(data, low1) > sample_at(data, high) {
        proof {
            lemma_exchange_inside(contents(*data), low as int, high as int, low1 as int, high as int);
        }
        exchange(data, low1, high);
    }
    if sample_at(data, low) > sample_at(data, low1) {
        proof {
            lemma_exchange_inside(contents(*data), low as int, high as int, low as int, low1 as int);
        }
        exchange(data, low, low1);
    }
}

/// Finds the sample of the given rank among the samples of `data`, which it
/// rearranges on the way.
///
/// A rank at or before the first position asks for the lowest sample and a
/// rank at or past the last for the highest; both are found by a plain scan.
/// Any other rank is found by partitioning, for at most
/// [`SELECTION_ROUNDS`] rounds. If the range has not closed by then the
/// answer is [`UNSETTLED`]; this cannot happen to a buffer that
/// [`settles_within_rounds`].
pub(crate) fn select_in_place(data: &mut safer_ffi::Vec<i64>, rank: i32) -> (r: i64)
    requires
        contents(*old(data)).len() >= 1,
    ensures
        same_samples(contents(*final(data)), contents(*old(data))),
        contents(*final(data)).len() == contents(*old(data)).len(),
        r == order_statistic(
            contents(*old(data)),
            nearest_rank(rank as int, contents(*old(data)).len()),
        ) || (r == UNSETTLED && !settles_within_rounds(contents(*old(data)).len())),
    no_unwind
{
    let n: usize = length(data);
    if rank <= 0 {
        least(data)
    } else if rank as usize >= n - 1 {
        greatest(data)
    } else {
        let target: usize = rank as usize;
        let mut low: usize = 0;
        let mut high: usize = n - 1;
        let mut round: usize = 0;
        while round < SELECTION_ROUNDS
            invariant
                n == contents(*data).len(),
                n == contents(*old(data)).len(),
                target == rank,
                0 < target < n - 1,
                low < n,
                high < n,
                round <= SELECTION_ROUNDS,
                high - low + 2 * round <= n - 1,
                2 * round <= n - 1,
                same_samples(contents(*data), contents(*old(data))),
                fenced(contents(*data), low as int, high as int),
                target < low || high < target ==> settled(contents(*data), target as int),
            decreases SELECTION_ROUNDS - round,
        {
            let low1: usize = low + 1;
            if high <= low1 {
                if high == low1 && sample_at(data, high) < sample_at(data, low) {
                    proof {
                        let before = contents(*data);
                        lemma_exchange_inside(before, low as int, high as int, low as int, high as int);
                        if target < low || high < target {
                            lemma_settled_outside(
                                before,
                                exchanged(before, low as int, high as int),
                                low as int,
                                high as int,
                                target as int,
                            );
                        }
                    }
                    exchange(data, low, high);
                }
                proof {
                    assert(settled(contents(*data), target as int));
                    lemma_settled_is_order_statistic(
                        contents(*old(data)),
                        contents(*data),
                        target as int,
                    );
                }
                return sample_at(data, target);
            }
            let ghost before = contents(*data);
            median_of_three(data, low, high);
            let (begin, end) = partition(data, low, high);
            proof {
                let after = contents(*data);
                assert(same_outside(before, after, low as int, high as int));
                if target < low || high < target {
                    lemma_settled_outside(before, after, low as int, high as int, target as int);
                }
            }
            if end >= target {
                high = end - 1;
            }
            if end <= target {
                low = begin;
            }
            round = round + 1;
        }
        UNSETTLED
    }
}

} // verus!
