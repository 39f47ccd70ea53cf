use timelapse::error::TimelapseError;
use timelapse::timelapse::Timelapse;

fn run(input: &[i32], start: i32, increment: i32, threshold: i32) -> Vec<i32> {
    Timelapse::from_sorted_iterator(input.to_vec(), start, increment, threshold)
        .unwrap()
        .collect()
        .unwrap()
}

#[test]
fn every_value_on_a_target_is_selected() {
    assert_eq!(run(&[0, 5, 10, 15, 20], 0, 5, 2), vec![0, 5, 10, 15, 20]);
}

#[test]
fn every_second_value_is_selected() {
    assert_eq!(run(&[0, 5, 10, 15, 20], 0, 10, 2), vec![0, 10, 20]);
}

#[test]
fn nothing_within_threshold_selects_nothing() {
    assert_eq!(run(&[0, 5, 10, 15, 20], 2, 10, 1), Vec::<i32>::new());
}

#[test]
fn values_at_the_edge_of_the_threshold_are_selected() {
    assert_eq!(run(&[0, 5, 10, 15, 20], 3, 10, 2), vec![5, 15]);
}

#[test]
fn dense_input_fills_most_targets() {
    assert_eq!(
        run(&[0, 2, 4, 6, 8, 12, 20, 22, 24, 28], 1, 3, 2),
        vec![0, 4, 6, 8, 12, 20, 22, 24, 28]
    );
}

#[test]
fn closer_successor_wins() {
    assert_eq!(run(&[11, 28, 29, 31], 0, 5, 2), vec![11, 29]);
}

#[test]
fn repeated_runs_agree() {
    let input = [0, 2, 4, 6, 8, 12, 20, 22, 24, 28];
    let first = run(&input, 1, 3, 2);
    let second = run(&input, 1, 3, 2);
    assert_eq!(first, second);
}

#[test]
fn collect_agrees_with_pulls() {
    let input = vec![11, 28, 29, 31, 40, 41, 58];
    let mut pulled = Vec::new();
    let mut tl = Timelapse::from_sorted_iterator(input.clone(), 0, 5, 2).unwrap();
    while let Some(value) = tl.next().unwrap() {
        pulled.push(value);
    }
    assert_eq!(pulled, run(&input, 0, 5, 2));
    assert_eq!(pulled, vec![11, 29, 40, 58]);
}

#[test]
fn output_is_a_subsequence_of_the_input() {
    let input = [-7, -3, 0, 1, 1, 4, 9, 9, 10, 17, 30, 31, 33];
    let output = run(&input, -6, 4, 1);
    assert_eq!(output, vec![-7, -3, 1, 9, 17, 30, 33]);
    let mut from = 0;
    for value in &output {
        let found = input[from..].iter().position(|x| x == value);
        assert!(found.is_some());
        from += found.unwrap() + 1;
    }
}

#[test]
fn earlier_of_two_equally_close_values_is_selected() {
    assert_eq!(run(&[8, 12], 10, 5, 2), vec![8]);
    assert_eq!(run(&[9, 9, 10], 10, 5, 2), vec![9]);
}

#[test]
fn empty_input_yields_nothing() {
    let mut tl = Timelapse::from_sorted_iterator(Vec::new(), 0, 5, 2).unwrap();
    assert_eq!(None, tl.next().unwrap());
    assert_eq!(None, tl.next().unwrap());
}

#[test]
fn single_value_is_judged_at_the_end() {
    assert_eq!(run(&[12], 0, 5, 2), vec![12]);
    assert_eq!(run(&[13], 0, 5, 1), Vec::<i32>::new());
    assert_eq!(run(&[-1], 0, 5, 2), vec![-1]);
    assert_eq!(run(&[-3], 0, 5, 2), Vec::<i32>::new());
}

#[test]
fn end_of_output_is_final() {
    let mut tl = Timelapse::from_sorted_iterator(vec![0, 2], 0, 5, 2).unwrap();
    assert_eq!(Some(0), tl.next().unwrap());
    assert_eq!(None, tl.next().unwrap());
    assert_eq!(None, tl.next().unwrap());
    assert_eq!(None, tl.next().unwrap());
}

#[test]
fn sparse_input_skips_targets() {
    assert_eq!(run(&[0, 1000, 1001, 2003], 0, 10, 3), vec![0, 1000, 2003]);
}

#[test]
fn zero_threshold_needs_exact_hits() {
    assert_eq!(run(&[0, 1, 2, 3, 4, 6, 7], 0, 2, 0), vec![0, 2, 4, 6]);
}

#[test]
fn extreme_values_do_not_overflow() {
    let input = [i32::MIN, i32::MIN + 1, 0, i32::MAX - 1, i32::MAX];
    assert_eq!(
        run(&input, i32::MIN, i32::MAX, 1),
        vec![i32::MIN, 0, i32::MAX - 1]
    );
    assert_eq!(run(&[i32::MAX, i32::MAX], i32::MAX, i32::MAX, i32::MAX - 1), vec![i32::MAX]);
}

#[test]
fn delta_is_the_distance_from_the_target() {
    let tl = Timelapse::from_sorted_iterator(vec![1, 2, 3], 7, 5, 2).unwrap();
    assert_eq!(tl.delta(7), 0);
    assert_eq!(tl.delta(4), 3);
    assert_eq!(tl.delta(12), 5);
    assert_eq!(tl.delta(i32::MIN), 7 + 2147483648i64);
    let mut tl = Timelapse::from_sorted_iterator(vec![7, 12], 7, 5, 2).unwrap();
    assert_eq!(Some(7), tl.next().unwrap());
    assert_eq!(tl.delta(7), 5);
    assert_eq!(tl.delta(12), 0);
}

#[test]
fn threshold_not_below_increment_is_refused() {
    for (start, increment, threshold) in [(0, 5, 5), (0, 5, 6), (3, 1, 1), (-4, 0, 0), (9, -2, 0), (0, 1, i32::MAX)] {
        let made = Timelapse::from_sorted_iterator(vec![0, 1, 2], start, increment, threshold);
        assert_eq!(made.err(), Some(TimelapseError::InvalidThreshold));
    }
}

#[test]
fn negative_threshold_is_refused() {
    let made = Timelapse::from_sorted_iterator(vec![0, 1, 2], 0, 5, -1);
    assert_eq!(made.err(), Some(TimelapseError::InvalidThreshold));
}

#[test]
fn largest_threshold_below_increment_is_accepted() {
    assert!(Timelapse::from_sorted_iterator(vec![0, 1, 2], 0, 5, 4).is_ok());
    assert!(Timelapse::from_sorted_iterator(vec![0, 1, 2], 0, 1, 0).is_ok());
}

#[test]
fn refusal_does_not_depend_on_the_input() {
    let made = Timelapse::from_sorted_iterator(vec![5, 4, 3], 0, 2, 2);
    assert_eq!(made.err(), Some(TimelapseError::InvalidThreshold));
}

#[test]
fn inversion_is_reported_when_reached() {
    let mut tl = Timelapse::from_sorted_iterator(vec![0, 5, 10, 9, 20], 0, 5, 2).unwrap();
    assert_eq!(Some(0), tl.next().unwrap());
    assert_eq!(Some(5), tl.next().unwrap());
    assert_eq!(Err(TimelapseError::Unsorted), tl.next());
}

#[test]
fn inversion_at_the_front_fails_the_first_pull() {
    let mut tl = Timelapse::from_sorted_iterator(vec![3, 2], 0, 5, 2).unwrap();
    assert_eq!(Err(TimelapseError::Unsorted), tl.next());
}

#[test]
fn failure_is_final() {
    let mut tl = Timelapse::from_sorted_iterator(vec![0, 7, 6, 10, 15], 0, 5, 2).unwrap();
    assert_eq!(Some(0), tl.next().unwrap());
    assert_eq!(Err(TimelapseError::Unsorted), tl.next());
    assert_eq!(Err(TimelapseError::Unsorted), tl.next());
    assert_eq!(Err(TimelapseError::Unsorted), tl.next());
}

#[test]
fn collect_fails_on_unsorted_input() {
    let tl = Timelapse::from_sorted_iterator(vec![0, 5, 10, 9, 20], 0, 5, 2).unwrap();
    assert_eq!(tl.collect(), Err(TimelapseError::Unsorted));
}

#[test]
fn collect_after_pulls_returns_the_rest() {
    let mut tl = Timelapse::from_sorted_iterator(vec![0, 5, 10, 15, 20], 0, 5, 2).unwrap();
    assert_eq!(Some(0), tl.next().unwrap());
    assert_eq!(Some(5), tl.next().unwrap());
    assert_eq!(tl.collect(), Ok(vec![10, 15, 20]));
}

#[test]
fn equal_values_are_in_order() {
    assert_eq!(run(&[5, 5, 5, 10, 10], 5, 5, 2), vec![5, 10]);
}

#[test]
fn selected_values_lie_within_threshold_of_increasing_targets() {
    let input = [3, 8, 14, 15, 16, 29, 41, 42, 57, 58, 59, 60, 75];
    let (start, increment, threshold) = (2i64, 7i64, 3i64);
    let output = run(&input, 2, 7, 3);
    assert_eq!(output, vec![3, 8, 16, 29, 42, 58, 75]);
    let mut last_slot = -1i64;
    for value in output {
        let value = value as i64;
        let slot = (value - start + threshold).div_euclid(increment);
        let target = start + slot * increment;
        assert!((value - target).abs() <= threshold);
        assert!(slot > last_slot);
        last_slot = slot;
    }
}
