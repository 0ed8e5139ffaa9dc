use clatter_rs::convolution::{convolve, kernel_window};
use clatter_rs::error::KernelError;

fn buffer(samples: Vec<i64>) -> safer_ffi::Vec<i64> {
    safer_ffi::Vec::from(samples)
}

fn convolved(input: &[i64], kernel: &[i64], length: usize, fill: i64) -> Vec<i64> {
    let input = buffer(input.to_vec());
    let kernel = buffer(kernel.to_vec());
    let mut output = buffer(vec![fill; length]);
    assert_eq!(convolve(&input, &kernel, length, &mut output), Ok(()));
    output.to_vec()
}

#[test]
fn unit_impulse_gives_the_signal_back() {
    let signal = [7, -3, 0, 12, 5];
    assert_eq!(convolved(&signal, &[1], 6, 99), vec![7, -3, 0, 12, 5, 99]);
}

#[test]
fn unit_impulse_is_followed_by_silence() {
    assert_eq!(convolved(&[4, 5], &[1], 6, 99), vec![4, 5, 0, 0, 0, 99]);
}

#[test]
fn each_sample_is_the_sum_over_the_kernel() {
    // (1, 2, 3) * (10, 100): 10, 120, 230, 300
    assert_eq!(convolved(&[1, 2, 3], &[10, 100], 6, -1), vec![10, 120, 230, 300, 0, -1]);
}

#[test]
fn kernel_longer_than_the_signal() {
    // (2, 1) * (1, 10, 100, 1000): 2, 21, 210, 2100, 1000
    assert_eq!(convolved(&[2, 1], &[1, 10, 100, 1000], 7, 5), vec![2, 21, 210, 2100, 1000, 0, 5]);
}

#[test]
fn convolution_is_linear_in_the_signal() {
    let a = [3, -1, 4, 1, -5, 9];
    let b = [2, 7, -1, 8, 2, -8];
    let sum: Vec<i64> = a.iter().zip(b.iter()).map(|(x, y)| x + y).collect();
    let kernel = [1, -2, 3];
    let of_a = convolved(&a, &kernel, 10, 0);
    let of_b = convolved(&b, &kernel, 10, 0);
    let of_sum = convolved(&sum, &kernel, 10, 0);
    for i in 0..9 {
        assert_eq!(of_sum[i], of_a[i] + of_b[i]);
    }
}

#[test]
fn the_last_entry_asked_for_is_left_alone() {
    assert_eq!(convolved(&[1, 1, 1], &[1, 1], 3, 42), vec![1, 2, 42]);
}

#[test]
fn entries_past_the_length_are_left_alone() {
    let input = buffer(vec![1, 2, 3]);
    let kernel = buffer(vec![2]);
    let mut output = buffer(vec![9, 9, 9, 9, 9]);
    assert_eq!(convolve(&input, &kernel, 3, &mut output), Ok(()));
    assert_eq!(&output[..], &[2, 4, 9, 9, 9]);
}

#[test]
fn a_length_of_zero_asks_for_nothing() {
    let input = buffer(vec![1, 2, 3]);
    let kernel = buffer(vec![1]);
    let mut output = buffer(vec![8, 8]);
    assert_eq!(convolve(&input, &kernel, 0, &mut output), Ok(()));
    assert_eq!(&output[..], &[8, 8]);
    let mut nothing = buffer(vec![]);
    assert_eq!(convolve(&input, &kernel, 0, &mut nothing), Ok(()));
}

#[test]
fn a_length_of_one_writes_nothing() {
    let input = buffer(vec![1, 2, 3]);
    let kernel = buffer(vec![1]);
    let mut output = buffer(vec![8, 8]);
    assert_eq!(convolve(&input, &kernel, 1, &mut output), Ok(()));
    assert_eq!(&output[..], &[8, 8]);
}

#[test]
fn an_empty_kernel_gives_silence() {
    assert_eq!(convolved(&[1, 2, 3], &[], 4, 7), vec![0, 0, 0, 7]);
}

#[test]
fn an_empty_signal_gives_silence() {
    assert_eq!(convolved(&[], &[1, 2], 4, 7), vec![0, 0, 0, 7]);
}

#[test]
fn a_length_the_output_cannot_hold_is_refused() {
    let input = buffer(vec![1, 2, 3]);
    let kernel = buffer(vec![1]);
    let mut output = buffer(vec![5, 5, 5]);
    assert_eq!(convolve(&input, &kernel, 4, &mut output), Err(KernelError::InvalidArgument));
    assert_eq!(&output[..], &[5, 5, 5]);
}

#[test]
fn a_sum_that_is_no_sample_stops_the_call() {
    let input = buffer(vec![1, i64::MAX, 1]);
    let kernel = buffer(vec![1, 1]);
    let mut output = buffer(vec![7, 7, 7, 7, 7]);
    // samples: 1, MAX + 1, MAX + 1, 1
    assert_eq!(convolve(&input, &kernel, 5, &mut output), Err(KernelError::Overflow));
    assert_eq!(&output[..], &[7, 7, 7, 1, 7]);
}

#[test]
fn a_product_that_is_no_sample_stops_the_call() {
    let input = buffer(vec![i64::MIN]);
    let kernel = buffer(vec![-1]);
    let mut output = buffer(vec![3, 3]);
    assert_eq!(convolve(&input, &kernel, 2, &mut output), Err(KernelError::Overflow));
    assert_eq!(&output[..], &[3, 3]);
}

#[test]
fn a_running_sum_must_fit_even_where_the_total_does() {
    let input = buffer(vec![-1, i64::MAX, 2]);
    let kernel = buffer(vec![1, 1, 1]);
    let mut output = buffer(vec![0, 0, 0, 0]);
    // sample 2 runs 2, 2 + MAX, 1 + MAX: the second sum is no sample
    assert_eq!(convolve(&input, &kernel, 4, &mut output), Err(KernelError::Overflow));
    assert_eq!(&output[..], &[0, 0, 0, 0]);
}

#[test]
fn extreme_samples_that_fit_are_kept() {
    assert_eq!(convolved(&[i64::MAX, i64::MIN], &[1], 3, 0), vec![i64::MAX, i64::MIN, 0]);
    assert_eq!(convolved(&[i64::MIN + 1], &[-1], 2, 0), vec![i64::MAX, 0]);
}

#[test]
fn window_of_an_early_sample_ends_at_the_sample() {
    assert_eq!(kernel_window(0, 10, 4), (0, 1));
    assert_eq!(kernel_window(2, 10, 4), (0, 3));
    assert_eq!(kernel_window(3, 10, 4), (0, 4));
}

#[test]
fn window_of_a_late_sample_is_cut_by_both_buffers() {
    assert_eq!(kernel_window(9, 10, 4), (0, 4));
    assert_eq!(kernel_window(11, 10, 4), (0, 4));
    assert_eq!(kernel_window(12, 10, 4), (1, 4));
    assert_eq!(kernel_window(14, 10, 4), (3, 4));
}

#[test]
fn window_past_both_buffers_is_empty() {
    assert_eq!(kernel_window(15, 10, 4), (4, 4));
    assert_eq!(kernel_window(20, 10, 4), (9, 4));
    assert_eq!(kernel_window(5, 3, 0), (1, 0));
    assert_eq!(kernel_window(usize::MAX, 0, usize::MAX), (usize::MAX - 1, usize::MAX));
}
