use smartdns::cache::DnsCacheEntry;
use smartdns::message::{Name, Query, RData, RecordType};
use smartdns::persist::{deserialize_many, serialize_many, PersistError};
use smartdns::response::{DnsResponse, ProbeResult};

fn lookup(domain: &str, data: RData, valid_until: u64) -> DnsCacheEntry {
    let query = Query::query(Name::from_ascii(domain).unwrap(), RecordType::A);
    DnsCacheEntry::new(DnsResponse::from_rdata(query, data), valid_until)
}

#[test]
fn test_lookup_serde() {
    let now = 1_000_000;
    let wall = 1_700_000_000;
    let lookups = vec![
        lookup("abc.exmample.com.", RData::A([127, 0, 0, 1]), now + 30_000),
        lookup("xyz.exmample.com.", RData::AAAA([0, 0, 0, 0, 0, 0, 0, 0, 0, 0, 0, 0, 0, 0, 0, 1]), now + 38_000),
    ];
    let data = serialize_many(&lookups, now, wall);
    let lookup2 = deserialize_many(&data, now, wall).unwrap();
    assert_eq!(lookup2.len(), lookups.len());
    assert_eq!(lookups[0].data.message(), lookup2[0].data.message());
    assert_eq!(lookups[1].data.message(), lookup2[1].data.message());
    assert_eq!(lookup2[0].valid_until, now + 30_000);
}

#[test]
fn test_persist_retains_stale_age_and_probe_result() {
    let now = 10_000_000;
    let wall = 1_700_000_000;
    let mut entry = lookup("stale.example.", RData::A([192, 0, 2, 1]), now - 300_000);
    entry.data = entry.data.with_probe_result(ProbeResult::Measured(12345));
    let data = serialize_many(&vec![entry], now, wall);
    let restored = deserialize_many(&data, now, wall).unwrap();
    assert!(now - restored[0].valid_until >= 299_000);
    assert_eq!(restored[0].data.probe_result(), ProbeResult::Measured(12345));
}

#[test]
fn entries_keep_group_hits_and_whole_seconds() {
    let now = 5_000_000;
    let wall = 1_000;
    let mut entry = lookup("group.example.", RData::A([192, 0, 2, 7]), now + 12_345);
    entry.data = entry.data.with_name_server_group("office".to_string());
    entry.stats.hits = 9;
    let bytes = entry.emit(now, wall).unwrap();
    let (back, end) = DnsCacheEntry::read(&bytes, now + 500, wall).unwrap();
    assert_eq!(end, bytes.len());
    assert_eq!(back.data.name_server_group(), Some("office"));
    assert_eq!(back.stats.hits, 9);
    assert_eq!(back.valid_until, now + 500 + 12_000);
    assert_eq!(back.data.probe_result(), ProbeResult::Unchecked);
}

#[test]
fn malformed_cache_files_are_refused() {
    let now = 1_000;
    let entry = lookup("x.example.", RData::A([1, 2, 3, 4]), now);
    let bytes = entry.emit(now, 10).unwrap();
    assert!(matches!(deserialize_many(&bytes[..bytes.len() - 1], now, 10), Err(PersistError::Malformed)));
    let mut wrong_tag = bytes.clone();
    wrong_tag[0] = 2;
    assert!(DnsCacheEntry::read(&wrong_tag, now, 10).is_err());
    assert!(deserialize_many(&[], now, 10).unwrap().is_empty());
}
