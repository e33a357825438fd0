use crates_scanner::pool::overdrive;
use crates_scanner::progress::{is_progress_due, progress_marks, PROGRESS_INTERVAL};

#[test]
fn progress_interval_is_ten_thousand() {
    assert_eq!(PROGRESS_INTERVAL, 10_000);
}

#[test]
fn progress_is_due_at_each_multiple_of_the_interval() {
    assert!(is_progress_due(0));
    assert!(!is_progress_due(1));
    assert!(!is_progress_due(9_999));
    assert!(is_progress_due(10_000));
    assert!(!is_progress_due(10_001));
    assert!(is_progress_due(250_000));
}

#[test]
fn progress_marks_of_a_span() {
    assert_eq!(progress_marks(0, 1), vec![0]);
    assert_eq!(progress_marks(0, 10_000), vec![0]);
    assert_eq!(progress_marks(0, 10_001), vec![0, 10_000]);
    assert_eq!(progress_marks(1, 9_999), Vec::<u64>::new());
    assert_eq!(progress_marks(1, 10_000), vec![10_000]);
    assert_eq!(progress_marks(9_990, 20_020), vec![10_000, 20_000, 30_000]);
    assert_eq!(progress_marks(20_000, 1), vec![20_000]);
}

#[test]
fn progress_marks_of_an_empty_span() {
    assert_eq!(progress_marks(0, 0), Vec::<u64>::new());
    assert_eq!(progress_marks(10_000, 0), Vec::<u64>::new());
}

#[test]
fn progress_marks_at_the_end_of_the_range() {
    let last = u64::MAX - u64::MAX % 10_000;
    assert_eq!(progress_marks(last, u64::MAX - last), vec![last]);
    assert_eq!(progress_marks(last + 1, u64::MAX - last - 1), Vec::<u64>::new());
    assert_eq!(progress_marks(last - 1, u64::MAX), vec![last]);
}

#[test]
fn overdrive_multiplies_the_available_parallelism() {
    assert_eq!(overdrive(8, 2), Some(16));
    assert_eq!(overdrive(1, 1), Some(1));
    assert_eq!(overdrive(12, 0), Some(0));
    assert_eq!(overdrive(0, 5), Some(0));
}

#[test]
fn overdrive_gives_nothing_beyond_the_range() {
    assert_eq!(overdrive(usize::MAX, 2), None);
    assert_eq!(overdrive(usize::MAX / 2 + 1, 2), None);
    assert_eq!(overdrive(usize::MAX, 1), Some(usize::MAX));
}
