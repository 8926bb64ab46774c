use smartdns::decode::decode_message;
use smartdns::dns_error::{AuthorityData, LookupError, NoRecords, ProtoErrorKind};
use smartdns::message::{Message, Name, Query, RData, Record, RecordType, ResponseCode, Soa};
use smartdns::net::{IpAddress, SocketAddress};
use smartdns::reply::{bad_datagram_reply, refusal, reply_bytes, request_kind, RequestKind};
use smartdns::request::Protocol;
use smartdns::response::DnsResponse;

fn name(text: &str) -> Name {
    Name::from_ascii(text).unwrap()
}

fn peer() -> SocketAddress {
    SocketAddress { ip: IpAddress::V4([192, 168, 1, 9]), port: 5353 }
}

#[test]
fn test_query_final_packet_preserves_response_codes() {
    let query = Query::query(name("alias.example."), RecordType::A);
    let mut cases: Vec<(ResponseCode, Result<DnsResponse, LookupError>)> = Vec::new();
    for code in [ResponseCode::NoError, ResponseCode::NXDomain, ResponseCode::ServFail, ResponseCode::Refused] {
        let authority = AuthorityData::new(query.clone(), None, true, false, None);
        let mut no_records: NoRecords = authority.into();
        no_records.response_code = code;
        cases.push((code, Err(ProtoErrorKind::NoRecordsFound(no_records).into())));
    }
    cases.push((ResponseCode::ServFail, Err(ProtoErrorKind::Timeout.into())));
    cases.push((ResponseCode::NXDomain, Err(ResponseCode::NXDomain.into())));
    cases.push((ResponseCode::Refused, Err(ResponseCode::Refused.into())));

    let mut response = DnsResponse::new_with_max_ttl(
        query.clone(),
        vec![Record::from_rdata(query.name.clone(), 30, RData::CNAME(name("missing.example.")))],
    );
    response.set_response_code(ResponseCode::NXDomain);
    response.add_authority(Record::from_rdata(
        name("example."),
        30,
        RData::SOA(Soa {
            mname: name("ns.example."),
            rname: name("hostmaster.example."),
            serial: 1,
            refresh: 60,
            retry: 60,
            expire: 3600,
            minimum: 30,
        }),
    ));
    cases.push((ResponseCode::NXDomain, Ok(response)));

    let mut truncated = DnsResponse::new_with_max_ttl(
        query.clone(),
        vec![Record::from_rdata(query.name.clone(), 30, RData::A([192, 0, 2, 1]))],
    );
    let mut m = truncated.message().clone();
    m.header.truncated = true;
    truncated.set_message(m);
    cases.push((ResponseCode::NoError, Ok(truncated)));

    for (code, result) in cases {
        let truncated = result.as_ref().is_ok_and(|r| r.message().header.truncated);
        let answers = result.as_ref().map(|r| r.message().answers.clone()).unwrap_or_default();
        let authorities = result.as_ref().map(|r| r.message().authorities.clone()).unwrap_or_default();
        let mut request = Message::query(1234);
        request.header.recursion_desired = true;
        request.queries.push(query.clone());
        let bytes = reply_bytes(&request.header, &query, result, peer(), Protocol::Udp).unwrap();
        let (response, _) = decode_message(&bytes).unwrap();
        assert_eq!(response.header.id, 1234);
        assert_eq!(response.header.response_code, code);
        assert_eq!(response.header.truncated, truncated);
        assert_eq!(response.queries, vec![query.clone()]);
        assert_eq!(response.answers, answers);
        assert_eq!(response.authorities, authorities);
        assert!(response.header.recursion_desired && response.header.recursion_available);
    }
}

#[test]
fn requests_that_are_not_standard_queries_are_refused() {
    let mut request = Message::query(7);
    request.queries.push(Query::query(name("example."), RecordType::A));
    assert_eq!(request_kind(&request.header), RequestKind::Lookup);
    request.header.op_code = 4;
    assert_eq!(request_kind(&request.header), RequestKind::NotImplemented);
    let r = refusal(&request, ResponseCode::NotImp);
    assert_eq!(r.header.id, 7);
    assert!(r.header.is_response);
    assert_eq!(r.header.response_code, ResponseCode::NotImp);
    assert_eq!(r.queries, request.queries);
    request.header.is_response = true;
    assert_eq!(request_kind(&request.header), RequestKind::FormatError);
}

#[test]
fn datagrams_that_are_no_message_get_a_format_error() {
    let bytes = [0x12u8, 0x34, 0x01, 0x00, 0, 1, 0, 0, 0, 0, 0, 0, 7];
    let r = bad_datagram_reply(&bytes);
    assert_eq!(r.header.id, 0x1234);
    assert_eq!(r.header.response_code, ResponseCode::FormErr);
    assert!(r.header.is_response && r.header.recursion_desired);
    let short = bad_datagram_reply(&[1, 2, 3]);
    assert_eq!(short.header.id, 0);
    assert_eq!(short.header.response_code, ResponseCode::NoError);
}
