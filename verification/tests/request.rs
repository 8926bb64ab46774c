use smartdns::codec::to_vec;
use smartdns::message::{Edns, Message, Name, Query, RData, RecordType, ResponseCode};
use smartdns::net::{IpAddress, SocketAddress};
use smartdns::request::{DnsRequest, Protocol, SerialMessage};
use smartdns::response::DnsResponse;

fn q(text: &str, t: RecordType) -> Query {
    Query::query(Name::from_ascii(text).unwrap(), t)
}

#[test]
fn requests_take_the_first_question() {
    let mut m = Message::query(9);
    m.queries.push(q("a.example.", RecordType::AAAA));
    let src = SocketAddress { ip: IpAddress::V4([192, 0, 2, 1]), port: 5353 };
    let mut r = DnsRequest::new(m, src, Protocol::Tcp);
    assert_eq!(r.id(), 9);
    assert_eq!(r.query(), &q("a.example.", RecordType::AAAA));
    assert_eq!(r.src(), src);
    assert_eq!(r.protocol(), Protocol::Tcp);
    assert!(!r.is_dnssec());
    r.set_query_type(RecordType::Unknown(48));
    assert!(r.is_dnssec());
    let c = r.with_cname(Name::from_ascii("b.example.").unwrap());
    assert_eq!(c.query().name, Name::from_ascii("b.example.").unwrap());
    let empty = DnsRequest::new(Message::query(1), src, Protocol::Udp);
    assert_eq!(empty.query(), &Query::default_query());
    let mut with_do = Message::query(2);
    with_do.edns = Some(Edns { max_payload: 1232, dnssec_ok: true });
    assert!(DnsRequest::new(with_do, src, Protocol::Udp).is_dnssec());
}

#[test]
fn replies_merge_header_and_message_codes() {
    let src = SocketAddress { ip: IpAddress::V4([127, 0, 0, 1]), port: 53 };
    let query = q("x.example.", RecordType::A);
    let mut response = DnsResponse::from_rdata(query.clone(), RData::A([1, 2, 3, 4]));
    response.set_response_code(ResponseCode::NXDomain);
    let header = Message::query(5).header;
    match SerialMessage::reply(response, header, src, Protocol::Udp) {
        SerialMessage::Reply(m, h, _, _, _) => {
            assert_eq!(h.response_code, ResponseCode::NXDomain);
            assert_eq!(m.header.response_code, ResponseCode::NXDomain);
        },
        _ => panic!("expected a reply"),
    }
    let response = DnsResponse::from_rdata(query.clone(), RData::A([1, 2, 3, 4]));
    let mut header = Message::query(5).header;
    header.response_code = ResponseCode::Refused;
    match SerialMessage::reply(response, header, src, Protocol::Udp) {
        SerialMessage::Reply(m, h, w, _, _) => {
            assert_eq!(h.response_code, ResponseCode::Refused);
            assert_eq!(m.header.response_code, ResponseCode::Refused);
            assert!(w.is_none());
        },
        _ => panic!("expected a reply"),
    }
    let bytes = to_vec(&DnsRequest::from_query(query.clone()).message().clone()).unwrap();
    let msg = SerialMessage::binary(bytes, src, Protocol::Https);
    assert!(msg.is_binary());
    assert_eq!(msg.protocol(), Protocol::Https);
    assert_eq!(msg.addr(), src);
    let req = msg.into_request().unwrap();
    assert_eq!(req.query(), &query);
    assert!(SerialMessage::binary(vec![1], src, Protocol::Udp).into_request().is_none());
}
