//! Sample buffers shared with a foreign caller.
//!
//! Buffers are `safer_ffi::Vec<i64>`: vectors with a fixed C layout that the
//! caller allocates and this library only borrows. Verus cannot look inside
//! one, so what a buffer holds is named by [`contents`], and the three
//! functions below that hand a buffer to `safer_ffi` are believed, not proved.
//! Everything else in the library reaches a buffer through the verified
//! helpers of this module.

use vstd::prelude::*;

verus! {

#[verifier::external_type_specification]
#[verifier::external_body]
#[verifier::reject_recursive_types(T)]
pub struct ExSampleVec<T>(safer_ffi::Vec<T>);

/// The samples a buffer holds, first to last.
pub uninterp spec fn contents(buffer: safer_ffi::Vec<i64>) -> Seq<i64>;

/// Borrows the samples of a buffer through `safer_ffi::Vec`'s `Deref::deref`,
/// which builds the slice from the buffer's pointer and length. Believed: the
/// slice holds exactly the buffer's samples.
#[verifier::external_body]
pub(crate) fn as_slice(buffer: &safer_ffi::Vec<i64>) -> (samples: &[i64])
    ensures
        samples@ == contents(*buffer),
    no_unwind
{
    core::ops::Deref::deref(buffer)
}

/// Borrows the samples of a buffer for writing through `safer_ffi::Vec`'s
/// `DerefMut::deref_mut`, which builds the slice over the buffer's own
/// storage. Believed: the slice starts out as the buffer's samples, and what
/// the slice holds when the borrow ends is what the buffer holds afterwards.
#[verifier::external_body]
pub(crate) fn as_mut_slice(buffer: &mut safer_ffi::Vec<i64>) -> (samples: &mut [i64])
    ensures
        samples@ == contents(*old(buffer)),
        contents(*final(buffer)) == final(samples)@,
    no_unwind
{
    core::ops::DerefMut::deref_mut(buffer)
}

/// Turns a vector into a buffer through `safer_ffi::Vec`'s `From<Vec<T>>`,
/// which takes over the vector's storage. Believed: the buffer holds the
/// vector's samples in the same order.
#[verifier::external_body]
pub(crate) fn from_vec(samples: Vec<i64>) -> (buffer: safer_ffi::Vec<i64>)
    ensures
        contents(buffer) == samples@,
{
    safer_ffi::Vec::from(samples)
}

/// The number of samples in a buffer: `len` on the slice that
/// `safer_ffi::Vec`'s `Deref::deref` hands out, which is the length the
/// buffer records. Believed: it is the number of samples the buffer holds.
#[verifier::external_body]
pub(crate) fn length(buffer: &safer_ffi::Vec<i64>) -> (n: usize)
    ensures
        n == contents(*buffer).len(),
    no_unwind
{
    buffer.len()
}

/// The sample at position `i`.
pub(crate) fn sample_at(buffer: &safer_ffi::Vec<i64>, i: usize) -> (x: i64)
    requires
        i < contents(*buffer).len(),
    ensures
        x == contents(*buffer)[i as int],
    no_unwind
{
    let samples = as_slice(buffer);
    samples[i]
}

/// Overwrites the sample at position `i`.
pub(crate) fn store(buffer: &mut safer_ffi::Vec<i64>, i: usize, x: i64)
    requires
        i < contents(*old(buffer)).len(),
    ensures
        contents(*final(buffer)) == contents(*old(buffer)).update(i as int, x),
    no_unwind
{
    let samples = as_mut_slice(buffer);
    samples[i] = x;
}

/// Exchanges the samples at positions `i` and `j`.
pub(crate) fn exchange(buffer: &mut safer_ffi::Vec<i64>, i: usize, j: usize)
    requires
        i < contents(*old(buffer)).len(),
        j < contents(*old(buffer)).len(),
    ensures
        contents(*final(buffer)) == crate::order::exchanged(
            contents(*old(buffer)),
            i as int,
            j as int,
        ),
    no_unwind
{
    let samples = as_mut_slice(buffer);
    let at_i: i64 = samples[i];
    let at_j: i64 = samples[j];
    samples[i] = at_j;
    samples[j] = at_i;
}

/// A buffer of `n` samples, all zero.
pub(crate) fn zeroed(n: usize) -> (buffer: safer_ffi::Vec<i64>)
    ensures
        contents(buffer) == Seq::new(n as nat, |i: int| 0i64),
{
    let mut samples: Vec<i64> = Vec::new();
    let mut i: usize = 0;
    while i < n
        invariant
            i <= n,
            samples@ == Seq::new(i as nat, |k: int| 0i64),
        decreases n - i,
    {
        samples.push(0);
        i = i + 1;
    }
    from_vec(samples)
}

} // verus!
