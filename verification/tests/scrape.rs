use clatter_rs::error::KernelError;
use clatter_rs::interpolation::Lookup;
use clatter_rs::scrape::{get_scrape, SCRAPE_LINEAR_SPACE_LEN};

fn buffer(samples: Vec<i64>) -> safer_ffi::Vec<i64> {
    safer_ffi::Vec::from(samples)
}

/// Abscissae 0, 10, 20, ... for `points` points, in a buffer with room to spare.
fn linear_space(points: usize) -> safer_ffi::Vec<i64> {
    let mut x: Vec<i64> = (0..points as i64).map(|i| 10 * i).collect();
    x.push(-1);
    x.push(-1);
    buffer(x)
}

#[test]
fn sampling_grid_has_4410_points() {
    assert_eq!(SCRAPE_LINEAR_SPACE_LEN, 4410);
}

#[test]
fn a_tick_reads_from_the_cursor_and_moves_it_on() {
    let mut cursor = 3;
    let plan = get_scrape(&mut cursor, 4, 20, 20, &linear_space(4), &vec![], &buffer(vec![])).unwrap();
    assert_eq!((plan.start, plan.end), (3, 7));
    assert_eq!(cursor, 7);
    assert!(plan.horizontal.is_empty());
    assert!(plan.vertical.is_empty());
}

#[test]
fn each_grid_point_is_looked_up_for_both_forces() {
    let mut cursor = 0;
    let grid = vec![0, 15, 29, 31];
    let force = buffer(vec![-5, 40, 5, 12, 777]);
    let plan = get_scrape(&mut cursor, 4, 10, 12, &linear_space(4), &grid, &force).unwrap();
    assert_eq!(
        plan.horizontal,
        vec![
            Lookup::Between { left: 0, right: 1 },
            Lookup::Between { left: 1, right: 2 },
            Lookup::Between { left: 2, right: 3 },
            Lookup::Upper,
        ]
    );
    assert_eq!(
        plan.vertical,
        vec![
            Lookup::Lower,
            Lookup::Upper,
            Lookup::Between { left: 0, right: 1 },
            Lookup::Between { left: 1, right: 2 },
        ]
    );
}

#[test]
fn only_the_first_abscissae_are_searched() {
    let mut cursor = 0;
    let x = buffer(vec![0, 10, 20, 30, 40, 50]);
    let plan = get_scrape(&mut cursor, 3, 10, 10, &x, &vec![25, 5], &buffer(vec![0, 0])).unwrap();
    assert_eq!(plan.horizontal, vec![Lookup::Upper, Lookup::Between { left: 0, right: 1 }]);
}

#[test]
fn cursor_wraps_to_the_front_of_the_curve() {
    let mut cursor = 0;
    let mut windows = Vec::new();
    for _ in 0..8 {
        let plan =
            get_scrape(&mut cursor, 3, 10, 10, &linear_space(3), &vec![], &buffer(vec![])).unwrap();
        assert!(plan.end < 10);
        windows.push((plan.start, plan.end, cursor));
    }
    assert_eq!(
        windows,
        vec![
            (0, 3, 3),
            (3, 6, 6),
            (6, 9, 9),
            (0, 3, 3),
            (3, 6, 6),
            (6, 9, 9),
            (0, 3, 3),
            (3, 6, 6)
        ]
    );
}

#[test]
fn a_cursor_past_the_curve_wraps_too() {
    let mut cursor = usize::MAX;
    let plan = get_scrape(&mut cursor, 3, 10, 10, &linear_space(3), &vec![], &buffer(vec![])).unwrap();
    assert_eq!((plan.start, plan.end, cursor), (0, 3, 3));
}

#[test]
fn a_window_that_ends_with_the_curve_has_no_upper_boundary() {
    let mut cursor = 6;
    let r = get_scrape(&mut cursor, 3, 9, 9, &linear_space(3), &vec![], &buffer(vec![]));
    assert!(matches!(r, Err(KernelError::InvalidArgument)));
    assert_eq!(cursor, 6);
}

#[test]
fn a_curve_no_longer_than_the_window_is_refused() {
    let mut cursor = 0;
    let r = get_scrape(&mut cursor, 5, 5, 9, &linear_space(5), &vec![], &buffer(vec![]));
    assert!(matches!(r, Err(KernelError::InvalidArgument)));
    let r = get_scrape(&mut cursor, 5, 4, 9, &linear_space(5), &vec![], &buffer(vec![]));
    assert!(matches!(r, Err(KernelError::InvalidArgument)));
    let r = get_scrape(&mut cursor, 5, 0, 9, &linear_space(5), &vec![], &buffer(vec![]));
    assert!(matches!(r, Err(KernelError::InvalidArgument)));
    assert_eq!(cursor, 0);
    assert!(get_scrape(&mut cursor, 5, 6, 9, &linear_space(5), &vec![], &buffer(vec![])).is_ok());
}

#[test]
fn a_second_curve_that_is_too_short_is_refused() {
    let mut cursor = 2;
    let r = get_scrape(&mut cursor, 3, 10, 5, &linear_space(3), &vec![], &buffer(vec![]));
    assert!(matches!(r, Err(KernelError::InvalidArgument)));
    assert_eq!(cursor, 2);
    assert!(get_scrape(&mut cursor, 3, 10, 6, &linear_space(3), &vec![], &buffer(vec![])).is_ok());
}

#[test]
fn a_tick_without_points_is_refused() {
    let mut cursor = 1;
    let r = get_scrape(&mut cursor, 0, 10, 10, &linear_space(3), &vec![], &buffer(vec![]));
    assert!(matches!(r, Err(KernelError::InvalidArgument)));
    assert_eq!(cursor, 1);
}

#[test]
fn too_few_abscissae_are_refused() {
    let mut cursor = 1;
    let r = get_scrape(&mut cursor, 4, 10, 10, &buffer(vec![0, 10, 20]), &vec![], &buffer(vec![]));
    assert!(matches!(r, Err(KernelError::InvalidArgument)));
    assert_eq!(cursor, 1);
}

#[test]
fn a_force_buffer_shorter_than_the_grid_is_refused() {
    let mut cursor = 1;
    let r = get_scrape(&mut cursor, 3, 10, 10, &linear_space(3), &vec![1, 2, 3], &buffer(vec![1, 2]));
    assert!(matches!(r, Err(KernelError::InvalidArgument)));
    assert_eq!(cursor, 1);
}

#[test]
fn two_ticks_on_the_same_inputs_plan_the_same_reads() {
    let grid: Vec<i64> = (0..50).map(|i| (i * 7) % 45).collect();
    let force = buffer((0..60).map(|i| (i * 13) % 50 - 5).collect());
    let x = linear_space(5);
    let mut first_cursor = 4;
    let mut second_cursor = 4;
    let first = get_scrape(&mut first_cursor, 5, 23, 30, &x, &grid, &force).unwrap();
    let second = get_scrape(&mut second_cursor, 5, 23, 30, &x, &grid, &force).unwrap();
    assert_eq!((first.start, first.end), (second.start, second.end));
    assert_eq!(first.horizontal, second.horizontal);
    assert_eq!(first.vertical, second.vertical);
    assert_eq!(first_cursor, second_cursor);
}

#[test]
fn no_lookup_names_a_point_outside_the_window() {
    let grid: Vec<i64> = (0..200).map(|i| (i * 37) % 230 - 20).collect();
    let force = buffer((0..200).map(|i| (i * 91) % 260 - 30).collect());
    let mut cursor = 0;
    for _ in 0..12 {
        let plan = get_scrape(&mut cursor, 20, 77, 80, &linear_space(20), &grid, &force).unwrap();
        assert!(plan.end < 77);
        for lookup in plan.horizontal.iter().chain(plan.vertical.iter()) {
            if let Lookup::Between { left, right } = *lookup {
                assert_eq!(left + 1, right);
                assert!(plan.start + right < plan.end);
            }
        }
    }
}
