use smartdns::cache::{CacheStatus, DnsCache};
use smartdns::message::{Name, Query, RData, Record, RecordType, ResponseCode};
use smartdns::response::DnsResponse;

fn query(text: &str) -> Query {
    Query::query(Name::from_ascii(text).unwrap(), RecordType::A)
}

#[test]
fn stored_answers_are_served_until_they_expire() {
    let mut cache = DnsCache::new(16, false, 0, 0);
    let q = query("www.example.");
    let response = DnsResponse::from_rdata(q.clone(), RData::A([192, 0, 2, 1]));
    cache.insert_response(response, 1_000, 60, "default");
    assert_eq!(cache.len(), 1);
    let (served, status) = cache.get(&query("WWW.Example."), 30_000).unwrap();
    assert_eq!(status, CacheStatus::Valid);
    assert_eq!(served.name_server_group(), Some("default"));
    assert_eq!(served.message().answers[0].data, RData::A([192, 0, 2, 1]));
    assert!(served.message().answers[0].ttl <= 60);
    assert!(cache.get(&query("other.example."), 30_000).is_none());
}

#[test]
fn expired_negative_answers_are_dropped() {
    let mut cache = DnsCache::new(16, true, 0, 0);
    let q = query("negative.example.");
    let mut negative = DnsResponse::new_with_max_ttl(q.clone(), Vec::new());
    negative.set_response_code(ResponseCode::NXDomain);
    negative.add_authority(Record::from_rdata(
        Name::from_ascii("example.").unwrap(),
        60,
        RData::SOA(smartdns::message::Soa {
            mname: Name::from_ascii("ns.example.").unwrap(),
            rname: Name::from_ascii("admin.example.").unwrap(),
            serial: 1,
            refresh: 1,
            retry: 1,
            expire: 1,
            minimum: 60,
        }),
    ));
    cache.insert_response(negative, 0, 60, "default");
    assert!(cache.get(&q, 1_000).is_some());
    assert!(cache.get(&q, 10_000_000).is_none());
    assert_eq!(cache.len(), 0);
}

#[test]
fn the_memory_limit_holds_after_storing() {
    let mut cache = DnsCache::new(1000, false, 0, 0);
    cache.set_limits(4096, 0);
    for i in 0..50u8 {
        let q = Query::query(Name::from_ascii(&format!("host{i}.example.")).unwrap(), RecordType::A);
        cache.insert_response(DnsResponse::from_rdata(q, RData::A([10, 0, 0, i])), 0, 300, "default");
        assert!(cache.memory_bytes() <= 4096);
    }
    assert!(cache.len() < 50);
}

#[test]
fn ttl_replies_preserve_records_expiry_and_the_memory_budget() {
    let q = query("ttl.example.");
    let response = DnsResponse::new_with_max_ttl(
        q.clone(),
        vec![Record::from_rdata(q.name.clone(), 30, RData::A([192, 0, 2, 1]))],
    );
    let now: u64 = 5_000_000;
    let mut cache = DnsCache::new(4, true, 30, 5);
    cache.insert_response(response.clone(), now, 30, "default");
    let original_memory = cache.memory_bytes();
    let (mut first, _) = cache.get(&q, now + 100).unwrap();
    assert_eq!(first.records()[0].ttl, 29);
    first.set_new_ttl(1);
    assert_eq!(cache.memory_bytes(), original_memory);
    cache.get(&q, now + 200).unwrap();
    let memory = cache.memory_bytes();
    let (second, _) = cache.get(&q, now + 900).unwrap();
    assert_eq!(second.records()[0].ttl, 29);
    assert_eq!(second.ip_addrs(), vec![smartdns::net::IpAddress::V4([192, 0, 2, 1])]);
    assert_eq!(cache.memory_bytes(), memory);
    cache.get(&q, now + 1100).unwrap();
    assert_eq!(cache.memory_bytes(), original_memory);
    assert_eq!(cache.get(&q, now + 30_000).unwrap().0.records()[0].ttl, 0);
    let (stale, status) = cache.get(&q, now + 31_000).unwrap();
    assert!(matches!(status, CacheStatus::Expired));
    assert_eq!(stale.records()[0].ttl, 5);
    assert_eq!(cache.cached_records()[0].records[0].ttl, 30);

    cache.clear();
    cache.insert_response(response, now, 30, "default");
    let limit = cache.memory_bytes();
    cache.set_limits(limit, 0);
    cache.get(&q, now + 100).unwrap();
    let (reply, _) = cache.get(&q, now + 900).unwrap();
    assert_eq!(reply.records()[0].ttl, 29);
    assert_eq!(cache.memory_bytes(), limit);
    assert_eq!(cache.len(), 1);
}

#[test]
fn cached_records_list_each_question_with_its_answers() {
    let mut cache = DnsCache::new(4, false, 0, 0);
    let a = query("a.example.");
    let b = query("b.example.");
    cache.insert_response(DnsResponse::from_rdata(a.clone(), RData::A([192, 0, 2, 1])), 1_000, 60, "default");
    cache.insert_response(DnsResponse::from_rdata(b.clone(), RData::A([192, 0, 2, 2])), 1_000, 60, "default");
    cache.get(&a, 2_000).unwrap();
    let listed = cache.cached_records();
    assert_eq!(listed.len(), 2);
    assert_eq!(listed[0].name, a.name);
    assert_eq!(listed[0].hits, 1);
    assert_eq!(listed[0].records[0].data, RData::A([192, 0, 2, 1]));
    assert_eq!(listed[1].name, b.name);
    assert_eq!(listed[1].hits, 0);
}
