use prime_scan::aggregator::{largest_of, sum_of, TOP_COUNT};
use prime_scan::sorting::sort_ascending;
use prime_scan::Aggregator;

fn summary_of(values: &[u64]) -> prime_scan::Summary {
    let mut aggregator = Aggregator::new();
    for value in values {
        aggregator.record(*value);
    }
    aggregator.finalize()
}

#[test]
fn a_new_aggregator_is_empty() {
    let aggregator = Aggregator::new();
    assert_eq!(aggregator.len(), 0);
    let summary = aggregator.finalize();
    assert_eq!(summary.primes, Vec::<u64>::new());
    assert_eq!(summary.count, 0);
    assert_eq!(summary.sum, 0);
    assert_eq!(summary.largest, Vec::<u64>::new());
}

#[test]
fn record_appends() {
    let mut aggregator = Aggregator::new();
    aggregator.record(7);
    assert_eq!(aggregator.len(), 1);
    aggregator.record(3);
    assert_eq!(aggregator.len(), 2);
    assert_eq!(aggregator.recorded(), &vec![7, 3]);
    let summary = aggregator.finalize();
    assert_eq!(summary.primes, vec![3, 7]);
}

#[test]
fn finalize_sorts_counts_and_sums() {
    let summary = summary_of(&[7, 2, 5, 3]);
    assert_eq!(summary.primes, vec![2, 3, 5, 7]);
    assert_eq!(summary.count, 4);
    assert_eq!(summary.sum, 17);
    assert_eq!(summary.largest, vec![2, 3, 5, 7]);
}

#[test]
fn the_order_of_recording_does_not_matter() {
    let primes: [u64; 10] = [2, 3, 5, 7, 11, 13, 17, 19, 23, 29];
    let reversed: [u64; 10] = [29, 23, 19, 17, 13, 11, 7, 5, 3, 2];
    let shuffled: [u64; 10] = [13, 2, 29, 7, 19, 3, 23, 11, 5, 17];
    let first = summary_of(&primes);
    for other in [summary_of(&reversed), summary_of(&shuffled)] {
        assert_eq!(other.primes, first.primes);
        assert_eq!(other.count, first.count);
        assert_eq!(other.sum, first.sum);
        assert_eq!(other.largest, first.largest);
    }
    assert_eq!(first.primes, primes.to_vec());
    assert_eq!(first.count, 10);
    assert_eq!(first.sum, 129);
}

#[test]
fn the_ten_largest_are_the_last_ten_in_ascending_order() {
    assert_eq!(TOP_COUNT, 10);
    let summary = summary_of(&[37, 2, 31, 3, 29, 5, 23, 7, 19, 11, 17, 13]);
    assert_eq!(summary.count, 12);
    assert_eq!(summary.largest, vec![5, 7, 11, 13, 17, 19, 23, 29, 31, 37]);
}

#[test]
fn with_exactly_ten_primes_all_are_listed() {
    let summary = summary_of(&[29, 23, 19, 17, 13, 11, 7, 5, 3, 2]);
    assert_eq!(summary.largest, vec![2, 3, 5, 7, 11, 13, 17, 19, 23, 29]);
}

#[test]
fn largest_of_takes_from_the_end() {
    let sorted: Vec<u64> = vec![1, 2, 3, 4, 5];
    assert_eq!(largest_of(&sorted, 0), Vec::<u64>::new());
    assert_eq!(largest_of(&sorted, 2), vec![4, 5]);
    assert_eq!(largest_of(&sorted, 5), vec![1, 2, 3, 4, 5]);
    assert_eq!(largest_of(&sorted, 6), vec![1, 2, 3, 4, 5]);
    assert_eq!(largest_of(&Vec::new(), 3), Vec::<u64>::new());
}

#[test]
fn the_sum_does_not_overflow() {
    let values: Vec<u64> = vec![u64::MAX, u64::MAX, 1];
    assert_eq!(sum_of(&values), 2 * (u64::MAX as u128) + 1);
    assert_eq!(sum_of(&Vec::new()), 0);
    let summary = summary_of(&[u64::MAX, u64::MAX]);
    assert_eq!(summary.sum, 36_893_488_147_419_103_230);
}

#[test]
fn sort_keeps_every_value() {
    assert_eq!(sort_ascending(Vec::new()), Vec::<u64>::new());
    assert_eq!(sort_ascending(vec![5]), vec![5]);
    assert_eq!(sort_ascending(vec![2, 1]), vec![1, 2]);
    assert_eq!(sort_ascending(vec![3, 1, 2, 3, 1, 0, u64::MAX, 3]), vec![0, 1, 1, 2, 3, 3, 3, u64::MAX]);
}

#[test]
fn sort_agrees_with_the_standard_sort() {
    let mut values: Vec<u64> = Vec::new();
    let mut x: u64 = 12345;
    let mut i: u32 = 0;
    while i < 1000 {
        x = x.wrapping_mul(6364136223846793005).wrapping_add(1442695040888963407);
        values.push(x >> 40);
        i += 1;
    }
    let mut expected = values.clone();
    expected.sort();
    assert_eq!(sort_ascending(values), expected);
}
