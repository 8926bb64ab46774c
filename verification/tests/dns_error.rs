use smartdns::dns_error::{AuthorityData, LookupError, ProtoErrorKind};
use smartdns::message::{Name, Query, RecordType, ResponseCode};

fn name(text: &str) -> Name {
    Name::from_ascii(text).unwrap()
}

#[test]
fn no_records_without_soa_becomes_an_empty_success_response() {
    let query = Query::query(name("no-https-record.example."), RecordType::HTTPS);
    let authority = AuthorityData::new(query.clone(), None, true, false, None);
    let err: LookupError = ProtoErrorKind::NoRecordsFound(authority.into()).into();

    let response = err
        .as_no_records_response(&query)
        .expect("NoRecordsFound should produce a DNS response even without an SOA");

    assert_eq!(response.response_code(), ResponseCode::NoError);
    assert!(response.message().answers.is_empty());
    assert!(response.message().authorities.is_empty());
}

#[test]
fn response_code_errors_are_negative_only_for_nxdomain_like_codes() {
    let err: LookupError = ResponseCode::ServFail.into();
    assert!(!err.is_nx_domain());
    let err = LookupError::no_records_found(Query::query(name("x.example."), RecordType::A), 60);
    assert!(!err.is_negative_response());
    let nx = AuthorityData::new(Query::query(name("x.example."), RecordType::A), None, true, true, None);
    let err: LookupError = ProtoErrorKind::NoRecordsFound(nx.into()).into();
    assert!(err.is_nx_domain());
    assert!(err.is_negative_response());
}
