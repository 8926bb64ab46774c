use smartdns::audit::{audit_line, audit_line_at, audit_speed, dated_audit_line, is_soa_only, push_duration};
use smartdns::dns_error::LookupError;
use smartdns::message::{Name, Query, RData, Record, RecordType, ResponseCode, Soa};
use smartdns::response::{DnsResponse, ProbeResult};

fn name(text: &str) -> Name {
    Name::from_ascii(text).unwrap()
}

fn text(bytes: Vec<u8>) -> String {
    String::from_utf8(bytes).unwrap()
}

fn duration(nanos: u64) -> String {
    let mut v = Vec::new();
    push_duration(&mut v, nanos);
    text(v)
}

#[test]
fn durations_read_as_their_debug_form() {
    for nanos in [0u64, 999, 1_000, 10_000_000, 1_500_000, 1_000_000_001, 3_000_000_000, 123_456] {
        assert_eq!(duration(nanos), format!("{:?}", std::time::Duration::from_nanos(nanos)));
    }
}

#[test]
fn audit_lines_name_the_client_question_times_and_records() {
    let query = Query::query(name("www.example.com."), RecordType::A);
    let result = Ok(DnsResponse::from_rdata(query.clone(), RData::A([93, 184, 216, 34])));
    let line = audit_line("127.0.0.1", &query, 10_000_000, 11_000_000, &result);
    assert_eq!(
        text(line),
        "127.0.0.1 query www.example.com., type: A, elapsed: 10ms, speed: 11ms, result 93.184.216.34 86400 A"
    );
    // 2022-11-11 20:18:11.099966887 +08:00
    let at = audit_line_at(1_668_169_091, 99_966_887, 8 * 3600, "127.0.0.1", &query, 10_000_000, 11_000_000, &result);
    assert_eq!(
        text(at.unwrap()),
        "[2022-11-11 20:18:11,099] 127.0.0.1 query www.example.com., type: A, elapsed: 10ms, speed: 11ms, result 93.184.216.34 86400 A"
    );
    assert!(audit_line_at(0, 0, 86_400, "127.0.0.1", &query, 0, 0, &result).is_none());
    let dated = dated_audit_line("2022-11-11 20:18:11,099", "127.0.0.1", &query, 10_000_000, 11_000_000, &result);
    assert_eq!(
        text(dated),
        "[2022-11-11 20:18:11,099] 127.0.0.1 query www.example.com., type: A, elapsed: 10ms, speed: 11ms, result 93.184.216.34 86400 A"
    );
    let failed: Result<DnsResponse, LookupError> = Err(LookupError::ResponseCode(ResponseCode::ServFail));
    assert!(text(audit_line("::1", &query, 0, 0, &failed)).ends_with("result query failed"));
}

#[test]
fn soa_only_answers_and_speeds() {
    let query = Query::query(name("missing.example."), RecordType::A);
    let mut response = DnsResponse::new_with_max_ttl(query.clone(), Vec::new());
    assert!(!is_soa_only(&Ok(response.clone()), &query));
    response.add_authority(Record::from_rdata(
        name("example."),
        60,
        RData::SOA(Soa {
            mname: name("ns.example."),
            rname: name("hostmaster.example."),
            serial: 1,
            refresh: 60,
            retry: 60,
            expire: 3600,
            minimum: 30,
        }),
    ));
    assert!(is_soa_only(&Ok(response.clone()), &query));
    let line = text(audit_line("c", &query, 0, 0, &Ok(response.clone())));
    assert!(line.ends_with("result ns.example. hostmaster.example. 1 60 60 3600 30 60 SOA"), "{line}");
    let answered = DnsResponse::from_rdata(query.clone(), RData::A([192, 0, 2, 1]));
    assert!(!is_soa_only(&Ok(answered.clone()), &query));
    assert!(!is_soa_only(&Err(LookupError::ResponseCode(ResponseCode::ServFail)), &query));
    assert_eq!(audit_speed(&Ok(answered.clone()), 7), 7);
    assert_eq!(audit_speed(&Ok(answered.with_probe_result(ProbeResult::Measured(42))), 7), 42);
}
