use smartdns::ddr::{ddr_lookup, svcb_bytes, Listener, ListenerKind};
use smartdns::message::{Name, Query, RData, RecordType};
use smartdns::net::IpAddress;

fn name(text: &str) -> Name {
    Name::from_ascii(text).unwrap()
}

fn listener(kind: ListenerKind, port: u16, ddr: bool) -> Listener {
    Listener { kind, enabled: true, ddr, ip: IpAddress::V4([192, 0, 2, 53]), port, server_name: None }
}

fn listeners() -> Vec<Listener> {
    vec![
        listener(ListenerKind::Tls, 8853, true),
        listener(ListenerKind::Https, 8443, true),
        listener(ListenerKind::Tls, 9853, false),
    ]
}

fn lookup(ls: &Vec<Listener>, qname: &str, t: RecordType) -> Option<smartdns::response::DnsResponse> {
    ddr_lookup(&name("resolver.example"), ls, &Query::query(name(qname), t), None, 600)
}

#[test]
fn test_ddr_advertises_enabled_encrypted_listeners() {
    let ls = listeners();
    let response = lookup(&ls, "_dns.resolver.arpa.", RecordType::SVCB).unwrap();
    let m = response.message();
    assert_eq!(m.answers.len(), 2);
    let target = name("resolver.example.");
    let hint = Some(IpAddress::V4([192, 0, 2, 53]));
    assert_eq!(m.answers[0].data, RData::Other(64, svcb_bytes(1, &target, &b"dot".to_vec(), 8853, hint, false)));
    assert_eq!(m.answers[1].data, RData::Other(64, svcb_bytes(2, &target, &b"h2".to_vec(), 8443, hint, true)));
    let doh = match &m.answers[1].data {
        RData::Other(64, raw) => raw.clone(),
        _ => panic!("missing SVCB"),
    };
    assert!(doh.ends_with(b"\x00\x07\x00\x10/dns-query{?dns}"));

    let address = lookup(&ls, "resolver.example.", RecordType::A).unwrap();
    assert_eq!(address.ip_addrs(), vec![IpAddress::V4([192, 0, 2, 53])]);

    for qname in ["_dns.resolver.arpa.", "unrelated.resolver.arpa."] {
        let response = lookup(&ls, qname, RecordType::AAAA).unwrap();
        assert!(response.message().answers.is_empty());
        assert_eq!(response.message().authorities[0].record_type(), RecordType::SOA);
    }
}

#[test]
fn svcb_data_lays_out_target_and_parameters() {
    let bytes = svcb_bytes(1, &name("a.b"), &b"dot".to_vec(), 853, Some(IpAddress::V4([10, 0, 0, 1])), false);
    assert_eq!(
        bytes,
        vec![
            0, 1, 1, b'a', 1, b'b', 0, 0, 1, 0, 4, 3, b'd', b'o', b't', 0, 3, 0, 2, 3, 85, 0, 4, 0, 4, 10, 0, 0, 1
        ]
    );
}

#[test]
fn questions_outside_the_reserved_zone_need_a_matching_listener() {
    let ls = listeners();
    assert!(lookup(&ls, "www.example.", RecordType::A).is_none());
    let named = lookup(&ls, "_dns.resolver.example.", RecordType::SVCB).unwrap();
    assert_eq!(named.message().answers.len(), 2);
    assert_eq!(named.message().additionals.len(), 2);
    let none = Vec::new();
    assert!(lookup(&none, "resolver.example.", RecordType::A).is_none());
    let soa_only = lookup(&none, "_dns.resolver.arpa.", RecordType::SVCB).unwrap();
    assert_eq!(soa_only.message().authorities.len(), 1);
}

#[test]
fn unspecified_listeners_use_the_local_address() {
    let mut ls = listeners();
    ls[0].ip = IpAddress::V4([0, 0, 0, 0]);
    ls[1].ip = IpAddress::V4([0, 0, 0, 0]);
    let q = Query::query(name("RESOLVER.example"), RecordType::A);
    let local = Some(IpAddress::V4([192, 168, 1, 1]));
    let r = ddr_lookup(&name("resolver.example"), &ls, &q, local, 600).unwrap();
    assert_eq!(r.ip_addrs(), vec![IpAddress::V4([192, 168, 1, 1])]);
    let r = ddr_lookup(&name("resolver.example"), &ls, &q, None, 600).unwrap();
    assert!(r.message().answers.is_empty());
    let aaaa = Query::query(name("resolver.example"), RecordType::AAAA);
    let r = ddr_lookup(&name("resolver.example"), &ls, &aaaa, local, 600).unwrap();
    assert!(r.message().answers.is_empty());
}
