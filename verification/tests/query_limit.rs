use smartdns::query_limit::{admits, Admission, QueryLimit};

#[test]
fn test_c_compat_foreground_query_limit_releases_capacity() {
    let mut limit = QueryLimit::new(Some(1));
    let first = limit.acquire(false);
    assert_eq!(first, Admission::Admitted { counted: true });
    assert_eq!(limit.acquire(false), Admission::Refused);
    limit.release(first);
    assert_eq!(limit.in_flight(), 0);
    let third = limit.acquire(false);
    assert_eq!(third, Admission::Admitted { counted: true });
}

#[test]
fn background_queries_and_zero_limits_are_not_counted() {
    let mut limit = QueryLimit::new(Some(1));
    let held = limit.acquire(false);
    assert_eq!(limit.acquire(true), Admission::Admitted { counted: false });
    limit.release(held);
    let mut off = QueryLimit::new(Some(0));
    for _ in 0..3 {
        assert_eq!(off.acquire(false), Admission::Admitted { counted: false });
    }
    assert!(admits(5, None, false));
    assert!(admits(5, Some(0), false));
    assert!(!admits(5, Some(5), false));
    assert!(admits(5, Some(5), true));
    assert!(admits(4, Some(5), false));
}
