//! A streaming median over the last few samples of a signal.
//!
//! The filter keeps its samples in a ring of [`WINDOW`] slots that is written
//! backwards, one slot per sample. Its view is the window itself: the samples
//! still in the ring, newest first. Until the ring has been filled once the
//! window is shorter than the ring, and the median is taken over the window
//! alone.

use crate::buffer::{contents, length, sample_at, store, zeroed};
use crate::error::KernelError;
use crate::order::{
    lemma_ascending_of_same_samples, order_statistic, same_samples,
};
use crate::select::{select_in_place, settles_within_rounds};
use vstd::prelude::*;
use vstd::seq_lib::lemma_multiset_commutative;

verus! {

/// The number of slots in the ring, and the longest window.
pub const WINDOW: usize = 5;

/// The median of a window, by the samples that decide it.
#[derive(Clone, Copy, Debug, PartialEq, Eq, Structural)]
pub enum Median {
    /// The middle sample of a window of odd length, which is its median.
    Middle(i64),
    /// The two middle samples of a window of even length, whose mean is its
    /// median.
    Between { lower: i64, upper: i64 },
}

/// The median of a sequence of samples that is not empty.
pub open spec fn median_of(s: Seq<i64>) -> Median
    recommends
        s.len() > 0,
{
    let k = s.len() as int / 2;
    if s.len() % 2 != 0 {
        Median::Middle(order_statistic(s, k))
    } else {
        Median::Between { lower: order_statistic(s, k - 1), upper: order_statistic(s, k) }
    }
}

/// The window after one more sample: the new sample in front, and the oldest
/// one dropped once the window is full.
pub open spec fn pushed(window: Seq<i64>, sample: i64) -> Seq<i64> {
    if window.len() < WINDOW {
        seq![sample] + window
    } else {
        seq![sample] + window.subrange(0, WINDOW - 1)
    }
}

/// Copies `count` samples of `source`, starting at `from`, over `target`.
fn copy_samples(
    source: &safer_ffi::Vec<i64>,
    from: usize,
    target: &mut safer_ffi::Vec<i64>,
    count: usize,
)
    requires
        from + count <= contents(*source).len(),
        from + count <= usize::MAX,
        count == contents(*old(target)).len(),
    ensures
        contents(*final(target)) == contents(*source).subrange(from as int, from + count),
    no_unwind
{
    let mut i: usize = 0;
    while i < count
        invariant
            i <= count,
            from + count <= contents(*source).len(),
            from + count <= usize::MAX,
            count == contents(*target).len(),
            forall|k: int| 0 <= k < i ==> contents(*target)[k] == contents(*source)[from + k],
        decreases count - i,
    {
        let x: i64 = sample_at(source, from + i);
        store(target, i, x);
        i = i + 1;
    }
    assert(contents(*target) =~= contents(*source).subrange(from as int, from + count));
}

/// The median of the samples of `data`, which it rearranges on the way.
///
/// The two selections share the round limit of [`select_in_place`], so the
/// result is promised for the buffers that settle within it.
pub(crate) fn median_in_place(data: &mut safer_ffi::Vec<i64>) -> (m: Median)
    requires
        1 <= contents(*old(data)).len() <= i32::MAX,
    ensures
        same_samples(contents(*final(data)), contents(*old(data))),
        contents(*final(data)).len() == contents(*old(data)).len(),
        settles_within_rounds(contents(*old(data)).len()) ==> m == median_of(contents(*old(data))),
    no_unwind
{
    let n: usize = length(data);
    let k: i32 = (n / 2) as i32;
    if n % 2 != 0 {
        let middle: i64 = select_in_place(data, k);
        Median::Middle(middle)
    } else {
        let lower: i64 = select_in_place(data, k - 1);
        proof {
            lemma_ascending_of_same_samples(contents(*data), contents(*old(data)));
        }
        let upper: i64 = select_in_place(data, k);
        Median::Between { lower, upper }
    }
}

/// The slot written after the one at `offset`: the one before it, and the
/// last one after the first.
pub open spec fn slot_before(offset: int) -> int {
    if offset == 0 {
        WINDOW - 1
    } else {
        offset - 1
    }
}

/// The window that a ring holds, newest sample first. A ring that was never
/// filled holds samples only from its write offset on, and none while the
/// offset rests at the front.
pub open spec fn window_of(ring: Seq<i64>, offset: int, full: bool) -> Seq<i64> {
    if full {
        ring.subrange(offset, WINDOW as int) + ring.subrange(0, offset)
    } else if offset == 0 {
        Seq::empty()
    } else {
        ring.subrange(offset, WINDOW as int)
    }
}

/// The window after a run of samples, taken in one by one.
pub open spec fn pushed_all(window: Seq<i64>, samples: Seq<i64>) -> Seq<i64>
    decreases samples.len(),
{
    if samples.len() == 0 {
        window
    } else {
        pushed(pushed_all(window, samples.drop_last()), samples.last())
    }
}

/// A median filter over the last [`WINDOW`] samples.
pub struct MedianFilter {
    buffer: safer_ffi::Vec<i64>,
    offset_buffer_1: safer_ffi::Vec<i64>,
    offset_buffer_2: safer_ffi::Vec<i64>,
    offset_buffer_3: safer_ffi::Vec<i64>,
    offset_buffer_4: safer_ffi::Vec<i64>,
    full_buffer: safer_ffi::Vec<i64>,
    offset: usize,
    full: bool,
}

impl View for MedianFilter {
    type V = Seq<i64>;

    /// The window: the samples still in the ring, newest first.
    open spec fn view(&self) -> Seq<i64> {
        window_of(self.ring(), self.slot() as int, self.filled())
    }
}

impl MedianFilter {
    #[verifier::type_invariant]
    spec fn well_formed(&self) -> bool {
        &&& contents(self.buffer).len() == WINDOW
        &&& contents(self.offset_buffer_1).len() == 1
        &&& contents(self.offset_buffer_2).len() == 2
        &&& contents(self.offset_buffer_3).len() == 3
        &&& contents(self.offset_buffer_4).len() == 4
        &&& contents(self.full_buffer).len() == WINDOW
        &&& self.offset < WINDOW
    }

    /// The slots of the ring, in storage order.
    pub closed spec fn ring(&self) -> Seq<i64> {
        contents(self.buffer)
    }

    /// The slot that was written last.
    pub closed spec fn slot(&self) -> usize {
        self.offset
    }

    /// Whether every slot of the ring has been written.
    pub closed spec fn filled(&self) -> bool {
        self.full
    }

    /// A filter that has seen no sample yet.
    pub fn new() -> (filter: MedianFilter)
        ensures
            filter@ == Seq::<i64>::empty(),
            filter.ring() == Seq::new(WINDOW as nat, |i: int| 0i64),
            filter.slot() == 0,
            !filter.filled(),
    {
        MedianFilter {
            buffer: zeroed(WINDOW),
            offset_buffer_1: zeroed(1),
            offset_buffer_2: zeroed(2),
            offset_buffer_3: zeroed(3),
            offset_buffer_4: zeroed(4),
            full_buffer: zeroed(WINDOW),
            offset: 0,
            full: false,
        }
    }

    /// A filter over a ring that a caller kept: its slots, the slot written
    /// last, and whether the ring was filled. A ring that does not have
    /// [`WINDOW`] slots, or an offset that names none of them, is refused.
    pub fn from_parts(buffer: safer_ffi::Vec<i64>, offset: usize, full: bool) -> (r: Result<
        MedianFilter,
        KernelError,
    >)
        ensures
            contents(buffer).len() == WINDOW && offset < WINDOW ==> r is Ok
                && r->Ok_0.ring() == contents(buffer) && r->Ok_0.slot() == offset
                && r->Ok_0.filled() == full,
            !(contents(buffer).len() == WINDOW && offset < WINDOW) ==> r is Err && r->Err_0
                == KernelError::InvalidArgument,
    {
        if length(&buffer) != WINDOW || offset >= WINDOW {
            return Err(KernelError::InvalidArgument);
        }
        Ok(
            MedianFilter {
                buffer,
                offset_buffer_1: zeroed(1),
                offset_buffer_2: zeroed(2),
                offset_buffer_3: zeroed(3),
                offset_buffer_4: zeroed(4),
                full_buffer: zeroed(WINDOW),
                offset,
                full,
            },
        )
    }

    /// The slots of the ring, in storage order.
    pub fn buffer(&self) -> (buffer: &safer_ffi::Vec<i64>)
        ensures
            contents(*buffer) == self.ring(),
            contents(*buffer).len() == WINDOW,
    {
        proof {
            use_type_invariant(self);
        }
        &self.buffer
    }

    /// The slot that was written last.
    pub fn offset(&self) -> (offset: usize)
        ensures
            offset == self.slot(),
            offset < WINDOW,
    {
        proof {
            use_type_invariant(self);
        }
        self.offset
    }

    /// Whether every slot of the ring has been written.
    pub fn is_full(&self) -> (full: bool)
        ensures
            full == self.filled(),
    {
        self.full
    }

    /// Takes one more sample into the window and returns the median of the
    /// window as it stands afterwards.
    ///
    /// The sample goes into the slot before the one written last; the ring
    /// counts as filled from the moment its first slot is written.
    pub fn process(&mut self, sample: i64) -> (m: Median)
        ensures
            final(self)@ == pushed(old(self)@, sample),
            0 < final(self)@.len() <= WINDOW,
            m == median_of(final(self)@),
            final(self).slot() == slot_before(old(self).slot() as int),
            final(self).filled() == (old(self).filled() || final(self).slot() == 0),
            final(self).ring() == old(self).ring().update(final(self).slot() as int, sample),
    {
        proof {
            use_type_invariant(&*self);
        }
        self.offset = if self.offset == 0 {
            WINDOW - 1
        } else {
            self.offset - 1
        };
        store(&mut self.buffer, self.offset, sample);
        self.full = self.full || self.offset == 0;
        let ghost ring = contents(self.buffer);
        assert(self@ =~= pushed(old(self)@, sample));
        if self.full {
            copy_samples(&self.buffer, 0, &mut self.full_buffer, WINDOW);
            proof {
                let front = ring.subrange(0, self.offset as int);
                let back = ring.subrange(self.offset as int, WINDOW as int);
                assert(contents(self.full_buffer) =~= front + back);
                lemma_multiset_commutative(front, back);
                lemma_multiset_commutative(back, front);
                assert(same_samples(contents(self.full_buffer), self@)) by {
                    assert(front.to_multiset().add(back.to_multiset()) =~= back.to_multiset().add(
                        front.to_multiset(),
                    ));
                }
                lemma_ascending_of_same_samples(contents(self.full_buffer), self@);
            }
            median_in_place(&mut self.full_buffer)
        } else {
            let count: usize = WINDOW - self.offset;
            if count == 1 {
                copy_samples(&self.buffer, self.offset, &mut self.offset_buffer_1, count);
                median_in_place(&mut self.offset_buffer_1)
            } else if count == 2 {
                copy_samples(&self.buffer, self.offset, &mut self.offset_buffer_2, count);
                median_in_place(&mut self.offset_buffer_2)
            } else if count == 3 {
                copy_samples(&self.buffer, self.offset, &mut self.offset_buffer_3, count);
                median_in_place(&mut self.offset_buffer_3)
            } else {
                copy_samples(&self.buffer, self.offset, &mut self.offset_buffer_4, count);
                median_in_place(&mut self.offset_buffer_4)
            }
        }
    }
}

/// A sequence read backwards holds the same samples.
pub proof fn lemma_reverse_same_samples(s: Seq<i64>)
    ensures
        same_samples(s.reverse(), s),
    decreases s.len(),
{
    if s.len() == 0 {
        assert(s.reverse() =~= s);
    } else {
        let rest = s.drop_last();
        let last = seq![s.last()];
        lemma_reverse_same_samples(rest);
        assert(s =~= rest + last);
        assert(s.reverse() =~= last + rest.reverse());
        lemma_multiset_commutative(rest, last);
        lemma_multiset_commutative(last, rest.reverse());
        assert(rest.to_multiset().add(last.to_multiset()) =~= last.to_multiset().add(
            rest.to_multiset(),
        ));
    }
}

/// Whatever the window held, after a run of samples it holds the newest of
/// them in front, newest first, and behind them what is left of its old
/// samples, as far as [`WINDOW`] reaches.
pub proof fn lemma_pushed_all(window: Seq<i64>, samples: Seq<i64>)
    requires
        window.len() <= WINDOW,
    ensures
        pushed_all(window, samples) == if samples.len() + window.len() <= WINDOW {
            samples.reverse() + window
        } else {
            (samples.reverse() + window).subrange(0, WINDOW as int)
        },
    decreases samples.len(),
{
    if samples.len() == 0 {
        assert(samples.reverse() + window =~= window);
    } else {
        let rest = samples.drop_last();
        lemma_pushed_all(window, rest);
        assert(samples.reverse() =~= seq![samples.last()] + rest.reverse());
        let before = pushed_all(window, rest);
        let after = pushed(before, samples.last());
        if samples.len() + window.len() <= WINDOW {
            assert(after =~= samples.reverse() + window);
        } else {
            assert(after =~= (samples.reverse() + window).subrange(0, WINDOW as int));
        }
    }
}

/// The filter is a sliding statistic: once [`WINDOW`] samples or more have
/// been taken in, the window is the last [`WINDOW`] of them, whatever it held
/// before, and its median is the median of those samples.
pub proof fn lemma_window_is_last_samples(window: Seq<i64>, samples: Seq<i64>)
    requires
        window.len() <= WINDOW,
        samples.len() >= WINDOW,
    ensures
        pushed_all(window, samples) == samples.subrange(
            samples.len() - WINDOW,
            samples.len() as int,
        ).reverse(),
        median_of(pushed_all(window, samples)) == median_of(
            samples.subrange(samples.len() - WINDOW, samples.len() as int),
        ),
{
    let recent = samples.subrange(samples.len() - WINDOW, samples.len() as int);
    lemma_pushed_all(window, samples);
    assert((samples.reverse() + window).subrange(0, WINDOW as int) =~= recent.reverse());
    lemma_reverse_same_samples(recent);
    lemma_ascending_of_same_samples(recent.reverse(), recent);
    assert(recent.len() == WINDOW);
    assert(recent.reverse().len() == WINDOW);
    assert(pushed_all(window, samples) == recent.reverse());
    assert(median_of(recent.reverse()) == median_of(recent));
}

/// The filter is repeatable: two filters that hold the same window take
/// the same run of samples to the same window, with the same median.
pub proof fn lemma_filter_is_repeatable(first: Seq<i64>, second: Seq<i64>, samples: Seq<i64>)
    requires
        first =~= second,
    ensures
        pushed_all(first, samples) == pushed_all(second, samples),
        median_of(pushed_all(first, samples)) == median_of(pushed_all(second, samples)),
{
}

} // verus!
