use smartdns::doh::{
    content_type, push_ipv6_text, request, wants_wire, DohError, DohJson, DohRequest, QueryParam,
    APPLICATION_DNS_MESSAGE, APPLICATION_JSON,
};
use smartdns::message::{Message, Name, Query, RData, Record, RecordType};

fn param(dns: Option<&str>, name: Option<&str>) -> QueryParam {
    QueryParam {
        dns: dns.map(|s| s.to_string()),
        name: name.map(|s| s.to_string()),
        query_type: QueryParam::default_query_type(),
        dnssec: false,
        checking_disabled: false,
    }
}

fn v6_text(a: [u8; 16]) -> String {
    let mut v = Vec::new();
    push_ipv6_text(&mut v, &a);
    String::from_utf8(v).unwrap()
}

#[test]
fn test_doh_requests_and_content_types() {
    assert_eq!(QueryParam::default_query_type(), "A");
    // A GET with a wire query: AAAB encodes [0, 0, 1].
    match request(Some(param(Some("AAAB"), None)), Vec::new()).unwrap() {
        DohRequest::Binary(b) => assert_eq!(b, vec![0, 0, 1]),
        DohRequest::Raw(_) => panic!("expected wire bytes"),
    }
    assert_eq!(request(Some(param(Some("***"), None)), Vec::new()).unwrap_err(), DohError::BadBase64);
    assert_eq!(request(Some(param(None, None)), Vec::new()).unwrap_err(), DohError::MissingQuery);
    assert_eq!(request(Some(param(None, Some("a..b"))), Vec::new()).unwrap_err(), DohError::BadName);
    let mut json = param(None, Some("resolver.example."));
    json.query_type = "AAAA".to_string();
    json.dnssec = true;
    match request(Some(json), Vec::new()).unwrap() {
        DohRequest::Raw(m) => {
            assert_eq!(m.queries[0], Query::query(Name::from_ascii("resolver.example.").unwrap(), RecordType::AAAA));
            assert!(m.edns.unwrap().dnssec_ok);
        },
        DohRequest::Binary(_) => panic!("expected a built message"),
    }
    match request(None, vec![9, 9]).unwrap() {
        DohRequest::Binary(b) => assert_eq!(b, vec![9, 9]),
        DohRequest::Raw(_) => panic!("expected the body"),
    }
    assert!(wants_wire(APPLICATION_DNS_MESSAGE, None));
    assert!(wants_wire("", None));
    assert!(!wants_wire(APPLICATION_JSON, None));
    assert!(!wants_wire("", Some(&param(None, Some("x.")))));
    assert!(wants_wire("", Some(&param(Some("AAAB"), None))));
    assert_eq!(content_type(true), "application/dns-message");
    assert_eq!(content_type(false), "application/json");
}

#[test]
fn json_view_of_an_answer() {
    let mut m = Message::query(3);
    m.header.is_response = true;
    m.header.authentic_data = true;
    m.queries.push(Query::query(Name::from_ascii("resolver.example.").unwrap(), RecordType::A));
    m.answers.push(Record::from_rdata(Name::from_ascii("resolver.example.").unwrap(), 30, RData::A([192, 0, 2, 9])));
    let j = DohJson::from_message(&m);
    assert_eq!(j.status, 0);
    assert!(j.ad && !j.cd);
    assert_eq!(j.question[0].name, b"resolver.example.".to_vec());
    assert_eq!(j.question[0].qtype, 1);
    assert_eq!(j.answer[0].data, b"192.0.2.9".to_vec());
    assert_eq!(j.answer[0].ttl, 30);
}

#[test]
fn ipv6_text_compresses_the_longest_zero_run() {
    assert_eq!(v6_text([0x20, 0x01, 0x0d, 0xb8, 0, 0, 0, 0, 0, 0, 0, 0, 0, 0, 0, 6]), "2001:db8::6");
    assert_eq!(v6_text([0; 16]), "::");
    let mut one = [0u8; 16];
    one[15] = 1;
    assert_eq!(v6_text(one), "::1");
    let mapped = [0, 0, 0, 0, 0, 0, 0, 0, 0, 0, 255, 255, 1, 2, 3, 4];
    assert_eq!(v6_text(mapped), "::ffff:1.2.3.4");
    let longest = [0, 1, 0, 0, 0, 0, 0, 1, 0, 0, 0, 0, 0, 0, 0, 1];
    assert_eq!(v6_text(longest), "1:0:0:1::1");
    let ties = [0, 1, 0, 0, 0, 0, 0, 1, 0, 0, 0, 0, 0, 1, 0, 1];
    assert_eq!(v6_text(ties), "1::1:0:0:1:1");
    let full = [0, 1, 0, 2, 0, 3, 0, 4, 0, 5, 0, 6, 0, 7, 0, 8];
    assert_eq!(v6_text(full), "1:2:3:4:5:6:7:8");
    let single = [0, 1, 0, 0, 0, 3, 0, 4, 0, 5, 0, 6, 0, 7, 0, 8];
    assert_eq!(v6_text(single), "1:0:3:4:5:6:7:8");
}
