use smartdns::bench::{answer, question, valid_answer};

#[test]
fn benchmark_wire_query_and_reply() {
    let query = question(0x1234, 257, 256);
    assert_eq!(&query[..6], &[0x12, 0x34, 1, 0, 0, 1]);
    assert!(query.windows(7).any(|value| value == b"host001"));
    let mut reply = answer(&query).unwrap();
    assert!(valid_answer(&reply, &query));
    *reply.last_mut().unwrap() = 2;
    assert!(!valid_answer(&reply, &query));
}

#[test]
fn benchmark_upstream_accepts_edns() {
    let query = question(0x1234, 257, 256);
    let mut with_edns = query.clone();
    with_edns[11] = 1;
    with_edns.extend([0, 0, 41, 4, 208, 0, 0, 0, 0, 0, 0]);
    let reply = answer(&with_edns).unwrap();
    assert_eq!(reply.len(), query.len() + 16);
    assert_eq!(&reply[10..12], &[0, 0]);
    assert!(valid_answer(&reply, &query));
}

#[test]
fn question_pads_the_host_number() {
    let query = question(7, 5, 1000);
    assert!(query.windows(7).any(|value| value == b"host005"));
    let query = question(7, 1234, 10000);
    assert!(query.windows(8).any(|value| value == b"host1234"));
}
