//! Causal convolution of a signal with a kernel.
//!
//! Output sample `i` is the sum of `input[i - j] * kernel[j]` over every `j`
//! for which both indices exist; what lies outside either buffer counts as
//! silence. The sum is specified over the integers, where convolution is
//! linear in the signal and a unit impulse is its identity.

use crate::buffer::{contents, sample_at, store};
use crate::error::KernelError;
use vstd::prelude::*;

verus! {

/// The samples of `s` as integers.
pub open spec fn widened(s: Seq<i64>) -> Seq<int> {
    s.map_values(|x: i64| x as int)
}

/// The contribution of kernel entry `j` to output sample `i`: nothing where
/// either index falls outside its buffer.
pub open spec fn conv_term(input: Seq<int>, kernel: Seq<int>, i: int, j: int) -> int {
    if 0 <= j < kernel.len() && 0 <= i - j < input.len() {
        input[i - j] * kernel[j]
    } else {
        0
    }
}

/// The contributions of the kernel entries before `n` to output sample `i`.
pub open spec fn conv_partial(input: Seq<int>, kernel: Seq<int>, i: int, n: int) -> int
    decreases n,
{
    if n <= 0 {
        0
    } else {
        conv_partial(input, kernel, i, n - 1) + conv_term(input, kernel, i, n - 1)
    }
}

/// Output sample `i` of the convolution of `input` with `kernel`.
pub open spec fn conv_at(input: Seq<int>, kernel: Seq<int>, i: int) -> int {
    conv_partial(input, kernel, i, kernel.len() as int)
}

/// The first kernel index consulted for output sample `i`.
pub open spec fn window_start(i: int, input_length: int) -> int {
    if i - input_length - 1 > 0 {
        i - input_length - 1
    } else {
        0
    }
}

/// One past the last kernel index consulted for output sample `i`.
pub open spec fn window_end(i: int, kernel_length: int) -> int {
    if i < kernel_length {
        i + 1
    } else {
        kernel_length
    }
}

/// Every running sum of output sample `i` is a sample.
pub open spec fn fits(input: Seq<int>, kernel: Seq<int>, i: int) -> bool {
    forall|n: int|
        0 <= n <= kernel.len() ==> i64::MIN <= #[trigger] conv_partial(input, kernel, i, n)
            <= i64::MAX
}

/// The last output index before `upto` with a running sum that is no sample,
/// or `-1` if there is none.
pub open spec fn last_unfit(input: Seq<int>, kernel: Seq<int>, upto: int) -> int
    decreases upto,
{
    if upto <= 0 {
        -1
    } else if !fits(input, kernel, upto - 1) {
        upto - 1
    } else {
        last_unfit(input, kernel, upto - 1)
    }
}

/// `before` with the entries from `from` up to `upto` replaced by the
/// convolution of `input` with `kernel`.
pub open spec fn convolved(
    before: Seq<i64>,
    input: Seq<int>,
    kernel: Seq<int>,
    from: int,
    upto: int,
) -> Seq<i64> {
    Seq::new(
        before.len(),
        |i: int|
            if from <= i < upto {
                conv_at(input, kernel, i) as i64
            } else {
                before[i]
            },
    )
}

/// The sum of two signals of one length, sample by sample.
pub open spec fn signal_sum(a: Seq<int>, b: Seq<int>) -> Seq<int>
    recommends
        a.len() == b.len(),
{
    Seq::new(a.len(), |i: int| a[i] + b[i])
}

/// Kernel entries before the window contribute nothing.
pub proof fn lemma_nothing_before_window(input: Seq<int>, kernel: Seq<int>, i: int, n: int)
    requires
        n <= window_start(i, input.len() as int),
    ensures
        conv_partial(input, kernel, i, n) == 0,
    decreases n,
{
    if n > 0 {
        lemma_nothing_before_window(input, kernel, i, n - 1);
    }
}

/// Kernel entries after the window contribute nothing.
pub proof fn lemma_nothing_after_window(input: Seq<int>, kernel: Seq<int>, i: int, n: int)
    requires
        0 <= i,
        window_end(i, kernel.len() as int) <= n,
    ensures
        conv_partial(input, kernel, i, n) == conv_partial(
            input,
            kernel,
            i,
            window_end(i, kernel.len() as int),
        ),
    decreases n,
{
    if n > window_end(i, kernel.len() as int) {
        lemma_nothing_after_window(input, kernel, i, n - 1);
    }
}

/// Convolution is linear in the signal: convolving the sum of two signals
/// gives, sample by sample, the sum of their convolutions.
pub proof fn lemma_convolution_linear(a: Seq<int>, b: Seq<int>, kernel: Seq<int>, i: int)
    requires
        a.len() == b.len(),
    ensures
        conv_at(signal_sum(a, b), kernel, i) == conv_at(a, kernel, i) + conv_at(b, kernel, i),
{
    lemma_partial_linear(a, b, kernel, i, kernel.len() as int);
}

proof fn lemma_partial_linear(a: Seq<int>, b: Seq<int>, kernel: Seq<int>, i: int, n: int)
    requires
        a.len() == b.len(),
    ensures
        conv_partial(signal_sum(a, b), kernel, i, n) == conv_partial(a, kernel, i, n)
            + conv_partial(b, kernel, i, n),
    decreases n,
{
    if n > 0 {
        lemma_partial_linear(a, b, kernel, i, n - 1);
        let j = n - 1;
        if 0 <= j < kernel.len() && 0 <= i - j < a.len() {
            let x = a[i - j];
            let y = b[i - j];
            let k = kernel[j];
            assert((x + y) * k == x * k + y * k) by (nonlinear_arith);
        }
    }
}

/// A unit impulse is the identity of convolution: the kernel `[1]` gives the
/// signal back, followed by silence.
pub proof fn lemma_unit_impulse_is_identity(input: Seq<int>, i: int)
    ensures
        conv_at(input, seq![1int], i) == if 0 <= i < input.len() {
            input[i]
        } else {
            0
        },
{
    let kernel = seq![1int];
    assert(kernel.len() == 1 && kernel[0] == 1);
    assert(conv_partial(input, kernel, i, 0) == 0);
    assert(conv_partial(input, kernel, i, 1) == conv_partial(input, kernel, i, 0) + conv_term(
        input,
        kernel,
        i,
        0,
    ));
}

/// The range of kernel indices consulted for output sample `i`, as its start
/// and the index one past its end. A start at or past the end means that
/// nothing is consulted. Inside the range, entry `j` is left out of the sum
/// where `i - j` lies past the input.
pub fn kernel_window(i: usize, input_length: usize, kernel_length: usize) -> (window: (
    usize,
    usize,
))
    ensures
        window.0 == window_start(i as int, input_length as int),
        window.1 == window_end(i as int, kernel_length as int),
    no_unwind
{
    let start: usize = if i > input_length && i - input_length > 1 {
        i - input_length - 1
    } else {
        0
    };
    let end: usize = if i < kernel_length {
        i + 1
    } else {
        kernel_length
    };
    (start, end)
}

proof fn lemma_product_is_wide(x: i64, y: i64)
    ensures
        -0x4000_0000_0000_0000_0000_0000_0000_0000 <= x * y
            <= 0x4000_0000_0000_0000_0000_0000_0000_0000,
{
    assert(-0x4000_0000_0000_0000_0000_0000_0000_0000 <= x * y
        <= 0x4000_0000_0000_0000_0000_0000_0000_0000) by (nonlinear_arith)
        requires
            -0x8000_0000_0000_0000 <= x <= 0x8000_0000_0000_0000,
            -0x8000_0000_0000_0000 <= y <= 0x8000_0000_0000_0000,
    ;
}

/// One output sample: the sum over the window of `i`, or nothing if a running
/// sum is no sample.
fn convolve_at(input: &safer_ffi::Vec<i64>, kernel: &safer_ffi::Vec<i64>, i: usize) -> (r: Option<
    i64,
>)
    ensures
        r is Some <==> fits(widened(contents(*input)), widened(contents(*kernel)), i as int),
        r is Some ==> r->0 == conv_at(widened(contents(*input)), widened(contents(*kernel)), i as int),
    no_unwind
{
    let input_length: usize = crate::buffer::length(input);
    let kernel_length: usize = crate::buffer::length(kernel);
    let ghost signal = widened(contents(*input));
    let ghost taps = widened(contents(*kernel));
    let (start, end) = kernel_window(i, input_length, kernel_length);
    let mut sum: i64 = 0;
    let mut j: usize = start;
    proof {
        assert forall|n: int| 0 <= n <= start implies conv_partial(signal, taps, i as int, n)
            == 0 by {
            lemma_nothing_before_window(signal, taps, i as int, n);
        }
    }
    while j < end
        invariant
            input_length == contents(*input).len(),
            kernel_length == contents(*kernel).len(),
            signal == widened(contents(*input)),
            taps == widened(contents(*kernel)),
            start == window_start(i as int, input_length as int),
            end == window_end(i as int, kernel_length as int),
            start <= j,
            j <= end || j == start,
            sum == conv_partial(signal, taps, i as int, j as int),
            forall|n: int|
                0 <= n <= j ==> i64::MIN <= #[trigger] conv_partial(signal, taps, i as int, n)
                    <= i64::MAX,
        decreases end - j,
    {
        assert(j <= i);
        if i - j < input_length {
            let x: i64 = sample_at(input, i - j);
            let k: i64 = sample_at(kernel, j);
            proof {
                lemma_product_is_wide(x, k);
                assert(signal[i - j] == x);
                assert(taps[j as int] == k);
            }
            let term: i128 = (x as i128) * (k as i128);
            let next: i128 = (sum as i128) + term;
            assert(next == conv_partial(signal, taps, i as int, j + 1));
            if next < i64::MIN as i128 || next > i64::MAX as i128 {
                return None;
            }
            sum = next as i64;
        } else {
            assert(conv_term(signal, taps, i as int, j as int) == 0);
        }
        j = j + 1;
    }
    proof {
        let last: int = if start >= end {
            start as int
        } else {
            end as int
        };
        assert(j == last);
        assert forall|n: int| 0 <= n <= kernel_length implies i64::MIN <= #[trigger] conv_partial(
            signal,
            taps,
            i as int,
            n,
        ) <= i64::MAX by {
            if n > j {
                lemma_nothing_after_window(signal, taps, i as int, n);
                lemma_nothing_after_window(signal, taps, i as int, j as int);
            }
        }
        lemma_nothing_after_window(signal, taps, i as int, kernel_length as int);
        lemma_nothing_after_window(signal, taps, i as int, j as int);
    }
    Some(sum)
}

/// Fills `output[0..length - 1]` with the convolution of `input` with
/// `kernel`, from the last of these entries down to the first. Entry
/// `length - 1` and everything after it is left alone, and a `length` of zero
/// asks for nothing.
///
/// A `length` that `output` cannot hold is refused before anything is
/// written. Where a running sum is no sample the call stops there: the
/// entries above the one that failed are filled, the rest is untouched.
pub fn convolve(
    input: &safer_ffi::Vec<i64>,
    kernel: &safer_ffi::Vec<i64>,
    length: usize,
    output: &mut safer_ffi::Vec<i64>,
) -> (r: Result<(), KernelError>)
    ensures
        length > contents(*old(output)).len() ==> r == Err::<(), KernelError>(
            KernelError::InvalidArgument,
        ) && contents(*final(output)) == contents(*old(output)),
        length <= contents(*old(output)).len() ==> {
            let signal = widened(contents(*input));
            let taps = widened(contents(*kernel));
            let unfit = last_unfit(signal, taps, length - 1);
            &&& contents(*final(output)) == convolved(
                contents(*old(output)),
                signal,
                taps,
                unfit + 1,
                length - 1,
            )
            &&& unfit < 0 ==> r == Ok::<(), KernelError>(())
            &&& unfit >= 0 ==> r == Err::<(), KernelError>(KernelError::Overflow)
        },
    no_unwind
{
    let ghost before = contents(*output);
    let ghost signal = widened(contents(*input));
    let ghost taps = widened(contents(*kernel));
    if length > crate::buffer::length(output) {
        return Err(KernelError::InvalidArgument);
    }
    if length == 0 {
        assert(contents(*output) =~= convolved(before, signal, taps, 0, -1));
        return Ok(());
    }
    let mut i: usize = length - 1;
    assert(contents(*output) =~= convolved(before, signal, taps, i as int, length - 1));
    while i > 0
        invariant
            i < length <= before.len(),
            before == contents(*old(output)),
            signal == widened(contents(*input)),
            taps == widened(contents(*kernel)),
            contents(*output) == convolved(before, signal, taps, i as int, length - 1),
            last_unfit(signal, taps, length - 1) == last_unfit(signal, taps, i as int),
        decreases i,
    {
        i = i - 1;
        assert(last_unfit(signal, taps, i + 1) == if fits(signal, taps, i as int) {
            last_unfit(signal, taps, i as int)
        } else {
            i as int
        });
        match convolve_at(input, kernel, i) {
            Some(sample) => {
                store(output, i, sample);
                assert(contents(*output) =~= convolved(before, signal, taps, i as int, length - 1));
            },
            None => {
                assert(contents(*output) =~= convolved(
                    before,
                    signal,
                    taps,
                    i as int + 1,
                    length - 1,
                ));
                return Err(KernelError::Overflow);
            },
        }
    }
    Ok(())
}

} // verus!
