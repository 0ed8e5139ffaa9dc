use clatter_rs::error::KernelError;
use clatter_rs::median::{Median, MedianFilter, WINDOW};

fn ring(samples: Vec<i64>) -> safer_ffi::Vec<i64> {
    safer_ffi::Vec::from(samples)
}

fn median_by_sorting(samples: &[i64]) -> Median {
    let mut sorted = samples.to_vec();
    sorted.sort();
    let n = sorted.len();
    if n % 2 != 0 {
        Median::Middle(sorted[n / 2])
    } else {
        Median::Between { lower: sorted[n / 2 - 1], upper: sorted[n / 2] }
    }
}

/// An integer code for a float that orders as the floats do.
fn key(x: f64) -> i64 {
    let bits = x.to_bits() as i64;
    bits ^ ((((bits >> 63) as u64) >> 1) as i64)
}

fn unkey(k: i64) -> f64 {
    f64::from_bits((k ^ ((((k >> 63) as u64) >> 1) as i64)) as u64)
}

fn mean(m: Median) -> f64 {
    match m {
        Median::Middle(middle) => unkey(middle),
        Median::Between { lower, upper } => (unkey(lower) + unkey(upper)) / 2.0,
    }
}

#[test]
fn median_follows_the_growing_window() {
    let mut filter = MedianFilter::new();
    assert_eq!(filter.process(5), Median::Middle(5));
    assert_eq!(filter.process(3), Median::Between { lower: 3, upper: 5 });
    assert_eq!(filter.process(1), Median::Middle(3));
    assert_eq!(filter.process(4), Median::Between { lower: 3, upper: 4 });
    assert_eq!(filter.process(2), Median::Middle(3));
}

#[test]
fn median_of_float_samples_through_ordered_keys() {
    let mut filter = MedianFilter::new();
    let expected = [5.0, 4.0, 3.0, 3.5, 3.0];
    for (sample, want) in [5.0, 3.0, 1.0, 4.0, 2.0].into_iter().zip(expected) {
        assert_eq!(mean(filter.process(key(sample))), want);
    }
}

#[test]
fn ordered_keys_keep_negative_and_fractional_samples_apart() {
    let mut filter = MedianFilter::new();
    filter.process(key(-0.25));
    filter.process(key(-1.5));
    assert_eq!(filter.process(key(0.75)), Median::Middle(key(-0.25)));
    assert_eq!(unkey(key(-0.25)), -0.25);
    assert!(key(-1.5) < key(-0.25) && key(-0.25) < key(0.75));
}

#[test]
fn first_sample_is_its_own_median() {
    let mut filter = MedianFilter::new();
    assert_eq!(filter.process(-7), Median::Middle(-7));
}

#[test]
fn stale_slots_do_not_count_before_the_ring_is_full() {
    let mut filter = MedianFilter::new();
    assert_eq!(filter.process(9), Median::Middle(9));
    assert_eq!(filter.process(8), Median::Between { lower: 8, upper: 9 });
    assert_eq!(filter.process(7), Median::Middle(8));
}

#[test]
fn median_slides_over_the_last_five_samples() {
    let samples: Vec<i64> = vec![12, -4, 7, 7, 0, 33, -18, 5, 2, 91, 6, 6, -1, 40, 3, 8, 15, -9];
    for extra in 0..samples.len() - WINDOW {
        let mut filter = MedianFilter::new();
        let mut last = Median::Middle(0);
        let fed = &samples[..extra + WINDOW];
        for &s in fed {
            last = filter.process(s);
        }
        assert_eq!(last, median_by_sorting(&fed[fed.len() - WINDOW..]));
        assert!(matches!(last, Median::Middle(_)));
    }
}

#[test]
fn every_output_is_the_median_of_the_window() {
    let samples: Vec<i64> = vec![3, 3, 3, 1, 2, 2, 9, 9, 0, -5, -5, 4, 100, -100, 50];
    let mut filter = MedianFilter::new();
    for (n, &s) in samples.iter().enumerate() {
        let from = (n + 1).saturating_sub(WINDOW);
        assert_eq!(filter.process(s), median_by_sorting(&samples[from..=n]));
    }
}

#[test]
fn extreme_samples_are_ordered_like_any_other() {
    let mut filter = MedianFilter::new();
    filter.process(i64::MAX);
    filter.process(i64::MIN);
    assert_eq!(filter.process(0), Median::Middle(0));
    assert_eq!(filter.process(i64::MIN), Median::Between { lower: i64::MIN, upper: 0 });
    assert_eq!(filter.process(i64::MAX), Median::Middle(0));
    assert_eq!(filter.process(i64::MAX), Median::Middle(0));
    assert_eq!(filter.process(i64::MAX), Median::Middle(i64::MAX));
}

#[test]
fn write_offset_runs_backwards_and_wraps() {
    let mut filter = MedianFilter::new();
    assert_eq!(filter.offset(), 0);
    assert!(!filter.is_full());
    let mut seen = Vec::new();
    for s in 0..7 {
        filter.process(s);
        seen.push((filter.offset(), filter.is_full()));
    }
    assert_eq!(
        seen,
        vec![
            (4, false),
            (3, false),
            (2, false),
            (1, false),
            (0, true),
            (4, true),
            (3, true)
        ]
    );
}

#[test]
fn ring_holds_each_sample_in_the_slot_it_was_written_to() {
    let mut filter = MedianFilter::new();
    assert_eq!(&filter.buffer()[..], &[0, 0, 0, 0, 0]);
    filter.process(11);
    filter.process(22);
    assert_eq!(&filter.buffer()[..], &[0, 0, 0, 22, 11]);
    for s in [33, 44, 55, 66] {
        filter.process(s);
    }
    assert_eq!(&filter.buffer()[..], &[55, 44, 33, 22, 66]);
}

#[test]
fn a_kept_ring_filters_on_where_it_stopped() {
    let mut filter = MedianFilter::from_parts(ring(vec![0, 0, 30, 10, 20]), 2, false).unwrap();
    assert_eq!(filter.offset(), 2);
    assert!(!filter.is_full());
    assert_eq!(filter.process(40), Median::Between { lower: 20, upper: 30 });
    assert_eq!(filter.process(25), Median::Middle(25));
    assert!(filter.is_full());
    assert_eq!(filter.process(1), Median::Middle(25));
    assert_eq!(&filter.buffer()[..], &[25, 40, 30, 10, 1]);
}

#[test]
fn a_full_kept_ring_counts_every_slot() {
    let mut filter = MedianFilter::from_parts(ring(vec![5, 1, 4, 2, 3]), 3, true).unwrap();
    assert_eq!(filter.process(100), Median::Middle(3));
    assert_eq!(&filter.buffer()[..], &[5, 1, 100, 2, 3]);
}

#[test]
fn a_ring_of_the_wrong_size_is_refused() {
    assert!(matches!(
        MedianFilter::from_parts(ring(vec![1, 2, 3, 4]), 0, false),
        Err(KernelError::InvalidArgument)
    ));
    assert!(matches!(
        MedianFilter::from_parts(ring(vec![1, 2, 3, 4, 5, 6]), 0, true),
        Err(KernelError::InvalidArgument)
    ));
    assert!(matches!(
        MedianFilter::from_parts(ring(vec![]), 0, false),
        Err(KernelError::InvalidArgument)
    ));
}

#[test]
fn an_offset_outside_the_ring_is_refused() {
    assert!(matches!(
        MedianFilter::from_parts(ring(vec![1, 2, 3, 4, 5]), WINDOW, false),
        Err(KernelError::InvalidArgument)
    ));
    assert!(MedianFilter::from_parts(ring(vec![1, 2, 3, 4, 5]), WINDOW - 1, false).is_ok());
}

#[test]
fn two_fresh_filters_agree_on_every_sample() {
    let samples: Vec<i64> = vec![4, -2, 9, 9, 1, 0, 17, -30, 8];
    let mut first = MedianFilter::new();
    let mut second = MedianFilter::new();
    for &s in &samples {
        assert_eq!(first.process(s), second.process(s));
    }
    assert_eq!(&first.buffer()[..], &second.buffer()[..]);
    assert_eq!(first.offset(), second.offset());
}
