use sudoku_solver::timing::{summarize, TimingSummary};

#[test]
fn summary_of_a_batch() {
    let summary = summarize(&vec![40, 10, 25, 31]).unwrap();
    assert_eq!(summary, TimingSummary { total: 106, average: 26, max: 40, min: 10 });
}

#[test]
fn summary_of_one_time() {
    let summary = summarize(&vec![7]).unwrap();
    assert_eq!(summary, TimingSummary { total: 7, average: 7, max: 7, min: 7 });
}

#[test]
fn average_is_rounded_down() {
    assert_eq!(summarize(&vec![1, 2]).unwrap().average, 1);
    assert_eq!(summarize(&vec![2, 2, 3]).unwrap().average, 2);
    assert_eq!(summarize(&vec![0, 0, 0, 3]).unwrap().average, 0);
}

#[test]
fn longest_and_shortest_are_found_wherever_they_stand() {
    let summary = summarize(&vec![5, 9, 1]).unwrap();
    assert_eq!((summary.max, summary.min), (9, 1));
    let summary = summarize(&vec![1, 5, 9]).unwrap();
    assert_eq!((summary.max, summary.min), (9, 1));
    let summary = summarize(&vec![9, 1, 5]).unwrap();
    assert_eq!((summary.max, summary.min), (9, 1));
    let summary = summarize(&vec![4, 4, 4]).unwrap();
    assert_eq!((summary.max, summary.min), (4, 4));
}

#[test]
fn empty_batch_has_no_summary() {
    assert_eq!(summarize(&Vec::new()), None);
}

#[test]
fn total_beyond_128_bits_has_no_summary() {
    assert_eq!(summarize(&vec![u128::MAX, 1]), None);
    assert_eq!(summarize(&vec![1, u128::MAX - 1, 1]), None);
}

#[test]
fn total_of_just_128_bits_is_summed() {
    let summary = summarize(&vec![u128::MAX - 1, 1]).unwrap();
    assert_eq!(summary.total, u128::MAX);
    assert_eq!(summary.average, u128::MAX / 2);
    assert_eq!(summary.max, u128::MAX - 1);
    assert_eq!(summary.min, 1);
}

#[test]
fn times_in_nanoseconds_keep_their_precision() {
    // one second and one nanosecond, and 999 999 999 nanoseconds
    let summary = summarize(&vec![1_000_000_001, 999_999_999]).unwrap();
    assert_eq!(summary.total, 2_000_000_000);
    assert_eq!(summary.average, 1_000_000_000);
}
