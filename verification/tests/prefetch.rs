use smartdns::prefetch::{
    check_due, min_interval_of, next_check_delay, notify_plan, prefetch_batches, read_u64, NotifyPlan,
    MAX_PREFETCH_CONCURRENCY,
};

#[test]
fn a_pending_earlier_wake_up_is_kept() {
    assert_eq!(notify_plan(500, 100, 0), NotifyPlan::Now);
    // Pending at 500, asked for 100 + 1000: the earlier one stays.
    assert_eq!(notify_plan(500, 100, 1000), NotifyPlan::Keep);
    // Pending at 500, asked for 100 + 200 = 300: sooner, so it replaces it.
    assert_eq!(notify_plan(500, 100, 200), NotifyPlan::At(300));
    // The pending one has passed.
    assert_eq!(notify_plan(50, 100, 200), NotifyPlan::At(300));
    assert_eq!(notify_plan(0, u64::MAX - 1, 10), NotifyPlan::At(u64::MAX));
}

#[test]
fn checks_wait_for_the_minimum_interval() {
    assert!(!check_due(1_000, 0, 1_000));
    assert!(check_due(1_001, 0, 1_000));
    assert!(!check_due(5, 10, 0));
    assert_eq!(next_check_delay(0, 1), 1);
    assert_eq!(next_check_delay(30, 1), 30);
}

#[test]
fn numbers_are_read_as_the_standard_library_reads_them() {
    assert_eq!(read_u64("12"), Some(12));
    assert_eq!(read_u64("+7"), Some(7));
    assert_eq!(read_u64("007"), Some(7));
    assert_eq!(read_u64(""), None);
    assert_eq!(read_u64("+"), None);
    assert_eq!(read_u64("-1"), None);
    assert_eq!(read_u64("1a"), None);
    assert_eq!(read_u64(" 1"), None);
    assert_eq!(read_u64("18446744073709551615"), Some(u64::MAX));
    assert_eq!(read_u64("18446744073709551616"), None);
    for text in ["0", "42", "+99", "x", "", "99999999999999999999"] {
        assert_eq!(read_u64(text), text.parse::<u64>().ok());
    }
    assert_eq!(min_interval_of(None), 1);
    assert_eq!(min_interval_of(Some("5")), 5);
    assert_eq!(min_interval_of(Some("soon")), 1);
}

#[test]
fn refreshes_run_in_full_batches_then_the_rest() {
    let items: Vec<u32> = (0..40).collect();
    let batches = prefetch_batches(items, MAX_PREFETCH_CONCURRENCY);
    assert_eq!(batches.iter().map(Vec::len).collect::<Vec<_>>(), vec![16, 16, 8]);
    assert_eq!(batches.concat(), (0..40).collect::<Vec<u32>>());
    assert!(prefetch_batches(Vec::<u32>::new(), 16).is_empty());
    assert_eq!(prefetch_batches(vec![1, 2, 3], 3), vec![vec![1, 2, 3]]);
}
