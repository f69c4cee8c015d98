use lockbench::{sort_ascending, summarize, Summary};

#[test]
fn single_trial_low_mid_high_equal() {
    let r = summarize(vec![42]);
    assert_eq!(r, Summary { low: 42, mid: 42, high: 42 });
}

#[test]
fn odd_count_takes_true_median() {
    let r = summarize(vec![3, 1, 2]);
    assert_eq!(r, Summary { low: 1, mid: 2, high: 3 });
}

#[test]
fn even_count_takes_upper_middle() {
    let r = summarize(vec![40, 10, 30, 20]);
    assert_eq!(r, Summary { low: 10, mid: 30, high: 40 });
}

#[test]
fn equal_durations() {
    let r = summarize(vec![7, 7, 7, 7, 7]);
    assert_eq!(r, Summary { low: 7, mid: 7, high: 7 });
}

#[test]
fn summary_is_ordered_and_recorded() {
    let times: Vec<u64> = (0..1000u64).map(|i| (i * 7919) % 1009 + 50).collect();
    let r = summarize(times.clone());
    assert!(r.low <= r.mid && r.mid <= r.high);
    assert!(times.contains(&r.low));
    assert!(times.contains(&r.mid));
    assert!(times.contains(&r.high));
    assert_eq!(r.low, *times.iter().min().unwrap());
    assert_eq!(r.high, *times.iter().max().unwrap());
    let mut expected = times.clone();
    expected.sort();
    assert_eq!(r.mid, expected[500]);
}

#[test]
fn extreme_durations() {
    let r = summarize(vec![u64::MAX, 0, 5]);
    assert_eq!(r, Summary { low: 0, mid: 5, high: u64::MAX });
}

#[test]
fn sort_orders_with_duplicates() {
    let mut v = vec![5, 3, 9, 3, 0, 5, 1];
    sort_ascending(&mut v);
    assert_eq!(v, vec![0, 1, 3, 3, 5, 5, 9]);
}

#[test]
fn sort_empty_and_sorted_inputs() {
    let mut e: Vec<u64> = Vec::new();
    sort_ascending(&mut e);
    assert!(e.is_empty());
    let mut s = vec![1, 2, 3];
    sort_ascending(&mut s);
    assert_eq!(s, vec![1, 2, 3]);
    let mut r = vec![3, 2, 1];
    sort_ascending(&mut r);
    assert_eq!(r, vec![1, 2, 3]);
}

#[test]
fn ten_thousand_trials_summary() {
    let times: Vec<u64> = (0..10_000u64).rev().collect();
    let r = summarize(times);
    assert_eq!(r, Summary { low: 0, mid: 5_000, high: 9_999 });
}
