use rustlibraries::timing::{median_duration, median_rank};
use std::time::Duration;

#[test]
fn median_duration_takes_middle_of_sorted_samples() {
    let samples = vec![
        Duration::from_millis(5),
        Duration::from_millis(1),
        Duration::from_millis(3),
        Duration::from_millis(2),
    ];
    assert_eq!(median_duration(samples), Duration::from_millis(3));
    assert_eq!(median_duration(vec![Duration::from_nanos(7)]), Duration::from_nanos(7));
    assert_eq!(
        rustlibraries::graph::median_duration(vec![Duration::from_secs(2), Duration::from_secs(1), Duration::from_secs(9)]),
        Duration::from_secs(2)
    );
}

#[test]
fn median_rank_handles_ties() {
    let keys = [4u128, 1, 4, 4, 2];
    let r = median_rank(&keys);
    assert_eq!(keys[r], 4);
    let pair = [9u128, 8];
    assert_eq!(pair[median_rank(&pair)], 9);
}
